//! Layered ("Sugiyama style") graph layout following the technique of Gansner et al.
//!
//! The library takes minimal information about nodes and edges (node bounding boxes) and
//! computes a layout. Rank hints let users ask for nodes to share a rank, or to sit on the
//! first or the last rank.
use vstd::prelude::*;

pub mod graph;
pub mod layout;
pub mod rank_set;

pub use crate::rank_set::RankIdx;
use crate::graph::{
    graph_add_edge, graph_add_node, graph_edge_count_of, graph_edge_endpoints, graph_edge_weight,
    graph_edges,
    graph_new, graph_node_count, graph_node_count_of, graph_with_capacity, EdgeEntry, LayoutGraph,
};
use crate::rank_set::{can_join, joined, RankSets, MAX_RANK, MIN_RANK};
use kurbo::{Point, Size};

verus! {

/// Node handle used to insert edges.
///
/// It holds the index of the node in the graph it was created by.
#[derive(Debug, Copy, Clone, PartialEq, Eq, Structural, PartialOrd, Ord, Hash)]
pub struct Node(pub(crate) u32);

impl Node {
    /// The index of the node in its graph.
    pub closed spec fn idx(self) -> u32 {
        self.0
    }

    /// Two handles with the same index are the same handle.
    pub broadcast proof fn lemma_idx_injective(a: Node, b: Node)
        ensures
            #[trigger] a.idx() == #[trigger] b.idx() <==> a == b,
    {
    }

    /// The index of the node in its graph.
    pub fn index(self) -> (r: u32)
        ensures
            r == self.idx(),
    {
        self.0
    }

    pub closed spec fn from_index_spec(i: u32) -> Node {
        Node(i)
    }

    pub broadcast proof fn lemma_from_index_spec(i: u32)
        ensures
            #[trigger] Node::from_index_spec(i).idx() == i,
    {
    }

    pub(crate) fn from_index(i: u32) -> (n: Node)
        ensures
            n.idx() == i,
    {
        Node(i)
    }
}

#[verifier::external_type_specification]
#[verifier::external_body]
pub struct ExSize(kurbo::Size);

#[verifier::external_type_specification]
#[verifier::external_body]
pub struct ExPoint(kurbo::Point);

/// The origin (kurbo's `Point::ZERO`).
#[verifier::external_body]
fn origin() -> Point {
    Point::ZERO
}

/// The IEEE 754 bit pattern of `1.0_f64`.
pub const ONE_WEIGHT_BITS: u64 = 0x3ff0_0000_0000_0000;

/// Whether the `f64` with bit pattern `bits` compares greater than or equal to `0.0`: `+0.0` up
/// to `+inf`, and `-0.0`. NaN and negative numbers do not.
pub open spec fn is_nonnegative_weight(bits: u64) -> bool {
    bits <= 0x7ff0_0000_0000_0000 || bits == 0x8000_0000_0000_0000
}

/// The edge that `Edge::new` makes.
pub open spec fn default_edge() -> Edge {
    Edge { min_rank_len: 1, weight_bits: ONE_WEIGHT_BITS }
}

/// What the layout knows of a node.
pub(crate) struct NodeWeight<Ix> {
    /// The index that was supplied by the user when adding the node.
    ix: Ix,
    /// The user-supplied size of the node's bounding box.
    size: Size,
    /// The calculated position of the node.
    position: Point,
}

impl<Ix> NodeWeight<Ix> {
    fn new(ix: Ix, size: Size) -> (w: Self)
        ensures
            w.ix == ix,
            w.size == size,
    {
        NodeWeight { ix, size, position: origin() }
    }
}

/// What the layout knows of an edge.
#[derive(Debug, Copy, Clone, PartialEq, Eq, Structural)]
pub struct Edge {
    /// Minimum number of ranks between the edge's ends (δ in the paper). Defaults to `1`.
    pub min_rank_len: RankIdx,
    /// The edge weight (ω in the paper), a non-negative number, as the bit pattern of an `f64`.
    /// Defaults to `1.0`.
    pub weight_bits: u64,
}

impl Edge {
    pub fn new() -> (e: Self)
        ensures
            e == default_edge(),
    {
        Edge { min_rank_len: 1, weight_bits: ONE_WEIGHT_BITS }
    }

    pub fn with_min_rank_len(self, min_rank_len: RankIdx) -> (e: Self)
        ensures
            e == (Edge { min_rank_len, ..self }),
    {
        let mut e = self;
        e.set_min_rank_len(min_rank_len);
        e
    }

    pub fn set_min_rank_len(&mut self, min_rank_len: RankIdx)
        ensures
            *final(self) == (Edge { min_rank_len, ..*old(self) }),
    {
        self.min_rank_len = min_rank_len;
    }

    /// The weight is given by the bit pattern of an `f64`, which must be `>= 0.0`.
    pub fn with_weight(self, weight_bits: u64) -> (e: Self)
        requires
            is_nonnegative_weight(weight_bits),
        ensures
            e == (Edge { weight_bits, ..self }),
    {
        let mut e = self;
        e.set_weight(weight_bits);
        e
    }

    /// The weight is given by the bit pattern of an `f64`, which must be `>= 0.0`.
    pub fn set_weight(&mut self, weight_bits: u64)
        requires
            is_nonnegative_weight(weight_bits),
        ensures
            *final(self) == (Edge { weight_bits, ..*old(self) }),
    {
        self.weight_bits = weight_bits;
    }
}

/// A graph to be laid out in layers, and its layout.
pub struct Gansner<NodeData> {
    graph: LayoutGraph,
    /// What is known of each node, under the node's index in `graph`.
    nodes: Vec<NodeWeight<NodeData>>,
    /// User-supplied hints that certain nodes should share the same rank.
    rank_hints: RankSets,
    /// Has the layout algorithm been run since the last node/edge was added?
    fresh: bool,
}

impl<NodeData> Gansner<NodeData> {
    /// The edges, in index order.
    pub closed spec fn edges(&self) -> Seq<EdgeEntry> {
        graph_edges(self.graph)
    }

    /// The number of nodes.
    pub closed spec fn node_count_spec(&self) -> nat {
        graph_node_count(self.graph)
    }

    /// The data that the user supplied for each node, by node index.
    pub closed spec fn data(&self) -> Seq<NodeData> {
        self.nodes@.map_values(|w: NodeWeight<NodeData>| w.ix)
    }

    /// The bounding box size that the user supplied for each node, by node index.
    pub closed spec fn sizes(&self) -> Seq<Size> {
        self.nodes@.map_values(|w: NodeWeight<NodeData>| w.size)
    }

    /// The position computed for each node, by node index.
    pub closed spec fn positions(&self) -> Seq<Point> {
        self.nodes@.map_values(|w: NodeWeight<NodeData>| w.position)
    }

    /// The rank hints, by node index.
    pub closed spec fn hints(&self) -> Map<u32, RankIdx> {
        self.rank_hints.hints()
    }

    /// The rank that the next new set of hinted nodes gets.
    pub closed spec fn next_rank(&self) -> RankIdx {
        self.rank_hints.next_rank()
    }

    /// Whether the layout is up to date with the nodes, edges and hints.
    pub closed spec fn is_fresh(&self) -> bool {
        self.fresh
    }

    /// The graph holds a node for each node weight, every edge joins two of its nodes, and
    /// node and edge indices fit petgraph's index type.
    pub closed spec fn wf(&self) -> bool {
        &&& self.nodes@.len() == graph_node_count(self.graph)
        &&& graph_node_count(self.graph) <= u32::MAX
        &&& graph_edges(self.graph).len() <= u32::MAX
        &&& edges_within(graph_edges(self.graph), graph_node_count(self.graph))
        &&& self.rank_hints.wf()
    }

    /// Whether `other` has the nodes, node data and rank hints of `self`.
    pub open spec fn same_nodes_and_hints(&self, other: &Self) -> bool {
        &&& other.node_count_spec() == self.node_count_spec()
        &&& other.data() == self.data()
        &&& other.sizes() == self.sizes()
        &&& other.positions() == self.positions()
        &&& other.hints() == self.hints()
        &&& other.next_rank() == self.next_rank()
    }

    /// What the closed views above stand for, for the other modules of the crate.
    pub(crate) proof fn lemma_unfold(&self)
        ensures
            self.edges() == graph_edges(self.graph),
            self.node_count_spec() == graph_node_count(self.graph),
            self.hints() == self.rank_hints.hints(),
            self.next_rank() == self.rank_hints.next_rank(),
            self.is_fresh() == self.fresh,
            self.data() == self.nodes@.map_values(|w: NodeWeight<NodeData>| w.ix),
            self.sizes() == self.nodes@.map_values(|w: NodeWeight<NodeData>| w.size),
            self.positions() == self.nodes@.map_values(|w: NodeWeight<NodeData>| w.position),
            self.wf() <==> {
                &&& self.nodes@.len() == graph_node_count(self.graph)
                &&& graph_node_count(self.graph) <= u32::MAX
                &&& graph_edges(self.graph).len() <= u32::MAX
                &&& edges_within(graph_edges(self.graph), graph_node_count(self.graph))
                &&& self.rank_hints.wf()
            },
    {
    }

    pub fn new() -> (g: Self)
        ensures
            g.wf(),
            g.node_count_spec() == 0,
            g.edges() == Seq::<EdgeEntry>::empty(),
            g.hints() == Map::<u32, RankIdx>::empty(),
            g.next_rank() == 1,
            !g.is_fresh(),
    {
        Self::from_graph(graph_new())
    }

    /// An empty graph with room for the given numbers of nodes and edges.
    pub fn with_capacity(nodes: usize, edges: usize) -> (g: Self)
        requires
            nodes as int * 8 <= isize::MAX,
            edges as int * 32 <= isize::MAX,
        ensures
            g.wf(),
            g.node_count_spec() == 0,
            g.edges() == Seq::<EdgeEntry>::empty(),
            g.hints() == Map::<u32, RankIdx>::empty(),
            g.next_rank() == 1,
            !g.is_fresh(),
    {
        Self::from_graph(graph_with_capacity(nodes, edges))
    }

    fn from_graph(graph: LayoutGraph) -> (g: Self)
        requires
            graph_node_count(graph) == 0,
            graph_edges(graph) == Seq::<EdgeEntry>::empty(),
        ensures
            g.wf(),
            g.graph == graph,
            g.nodes@ == Seq::<NodeWeight<NodeData>>::empty(),
            g.hints() == Map::<u32, RankIdx>::empty(),
            g.next_rank() == 1,
            !g.fresh,
    {
        Self { graph, nodes: Vec::new(), rank_hints: RankSets::new(), fresh: false }
    }

    /// The number of nodes.
    pub fn node_count(&self) -> (n: usize)
        requires
            self.wf(),
        ensures
            n == self.node_count_spec(),
    {
        graph_node_count_of(&self.graph)
    }

    /// The rank hint of a node, if it has one.
    pub fn node_rank(&self, node: Node) -> (r: Option<RankIdx>)
        ensures
            r == self.hints().get(node.idx()),
    {
        self.rank_hints.node_rank(node)
    }

    /// The rank that the next new set of nodes gets.
    pub fn next_new_rank(&self) -> (r: RankIdx)
        ensures
            r == self.next_rank(),
    {
        self.rank_hints.next_new_rank()
    }

    /// Whether the layout is up to date: `layout` was called since the last change.
    pub fn is_laid_out(&self) -> (b: bool)
        ensures
            b == self.is_fresh(),
    {
        self.fresh
    }

    /// The number of edges.
    pub fn edge_count(&self) -> (n: usize)
        requires
            self.wf(),
        ensures
            n == self.edges().len(),
    {
        graph_edge_count_of(&self.graph)
    }

    /// Add a node to the graph.
    ///
    /// Node order matters: nodes are condensed and numbered in the order they were added, and
    /// that numbering is what petgraph's greedy feedback arc set heuristic sees when it picks
    /// the edges to reverse to break cycles. It does not decide the choice alone: an edge out of
    /// a node without incoming edges, or into a node without outgoing edges, is never reversed,
    /// whichever of its nodes came first.
    pub fn add_node(&mut self, ix: NodeData, size: Size) -> (n: Node)
        requires
            old(self).wf(),
            old(self).node_count_spec() < u32::MAX,
        ensures
            final(self).wf(),
            n.idx() == old(self).node_count_spec(),
            final(self).node_count_spec() == old(self).node_count_spec() + 1,
            final(self).data() == old(self).data().push(ix),
            final(self).sizes() == old(self).sizes().push(size),
            final(self).positions().len() == old(self).positions().len() + 1,
            final(self).positions().take(old(self).positions().len() as int) == old(self).positions(),
            final(self).edges() == old(self).edges(),
            final(self).hints() == old(self).hints(),
            final(self).next_rank() == old(self).next_rank(),
            !final(self).is_fresh(),
    {
        self.fresh = false;
        let w = NodeWeight::new(ix, size);
        let i = graph_add_node(&mut self.graph);
        self.nodes.push(w);
        proof {
            assert(self.data() =~= old(self).data().push(ix));
            assert(self.sizes() =~= old(self).sizes().push(size));
        }
        Node(i)
    }

    pub fn add_edge(&mut self, from: Node, to: Node)
        requires
            old(self).wf(),
            from.idx() < old(self).node_count_spec(),
            to.idx() < old(self).node_count_spec(),
            old(self).edges().len() < u32::MAX,
        ensures
            final(self).wf(),
            final(self).edges() == old(self).edges().push(
                (from.idx() as nat, to.idx() as nat, default_edge()),
            ),
            final(self).node_count_spec() == old(self).node_count_spec(),
            final(self).data() == old(self).data(),
            final(self).sizes() == old(self).sizes(),
            final(self).positions() == old(self).positions(),
            final(self).hints() == old(self).hints(),
            final(self).next_rank() == old(self).next_rank(),
            !final(self).is_fresh(),
    {
        self.fresh = false;
        graph_add_edge(&mut self.graph, from.0, to.0, Edge::new());
    }

    /// Add an edge, and in addition request that the edge traverses at least `min_rank_len`
    /// ranks. The weight is given by the bit pattern of an `f64`, which must be `>= 0.0`.
    pub fn add_edge_with_options(
        &mut self,
        from: Node,
        to: Node,
        min_rank_len: RankIdx,
        weight_bits: u64,
    )
        requires
            old(self).wf(),
            from.idx() < old(self).node_count_spec(),
            to.idx() < old(self).node_count_spec(),
            old(self).edges().len() < u32::MAX,
            is_nonnegative_weight(weight_bits),
        ensures
            final(self).wf(),
            final(self).edges() == old(self).edges().push(
                (from.idx() as nat, to.idx() as nat, Edge { min_rank_len, weight_bits }),
            ),
            final(self).node_count_spec() == old(self).node_count_spec(),
            final(self).data() == old(self).data(),
            final(self).sizes() == old(self).sizes(),
            final(self).positions() == old(self).positions(),
            final(self).hints() == old(self).hints(),
            final(self).next_rank() == old(self).next_rank(),
            !final(self).is_fresh(),
    {
        self.fresh = false;
        graph_add_edge(
            &mut self.graph,
            from.0,
            to.0,
            Edge::new().with_min_rank_len(min_rank_len).with_weight(weight_bits),
        );
    }

    /// Set the rank hint for a particular node to max.
    pub fn set_rank_max(&mut self, node: Node)
        requires
            old(self).wf(),
            !old(self).hints().contains_key(node.idx()),
        ensures
            final(self).wf(),
            final(self).hints() == old(self).hints().insert(node.idx(), MAX_RANK),
            final(self).next_rank() == old(self).next_rank(),
            final(self).edges() == old(self).edges(),
            final(self).node_count_spec() == old(self).node_count_spec(),
            final(self).data() == old(self).data(),
            final(self).sizes() == old(self).sizes(),
            final(self).positions() == old(self).positions(),
            !final(self).is_fresh(),
    {
        self.fresh = false;
        self.rank_hints.set_rank_max(node)
    }

    /// Set the rank hint for a particular node to min.
    pub fn set_rank_min(&mut self, node: Node)
        requires
            old(self).wf(),
            !old(self).hints().contains_key(node.idx()),
        ensures
            final(self).wf(),
            final(self).hints() == old(self).hints().insert(node.idx(), MIN_RANK),
            final(self).next_rank() == old(self).next_rank(),
            final(self).edges() == old(self).edges(),
            final(self).node_count_spec() == old(self).node_count_spec(),
            final(self).data() == old(self).data(),
            final(self).sizes() == old(self).sizes(),
            final(self).positions() == old(self).positions(),
            !final(self).is_fresh(),
    {
        self.fresh = false;
        self.rank_hints.set_rank_min(node)
    }

    /// Run the layout algorithm.
    ///
    /// Nothing is done when the layout is up to date. Otherwise the graph that ranks are
    /// assigned on is prepared apart from this graph, whose edges stay the same, at the same
    /// indices. Ranks and coordinates are not assigned yet: node positions stay as they were.
    pub fn layout(&mut self)
        requires
            old(self).wf(),
        ensures
            final(self).wf(),
            final(self).is_fresh(),
            old(self).same_nodes_and_hints(final(self)),
            final(self).edges() == old(self).edges(),
    {
        if self.fresh == true {
            return ;
        }
        self.layout_impl(false);
        self.fresh = true;
    }

    /// Run the layout algorithm, with the debug information switched on; this does what
    /// `layout` does.
    pub fn layout_debug(&mut self)
        requires
            old(self).wf(),
        ensures
            final(self).wf(),
            final(self).is_fresh(),
            old(self).same_nodes_and_hints(final(self)),
            final(self).edges() == old(self).edges(),
    {
        if self.fresh == true {
            return ;
        }
        self.layout_impl(true);
        self.fresh = true;
    }

    /// Every edge as its source, target and weight, in index order.
    pub fn edge_list(&self) -> (r: Vec<(Node, Node, Edge)>)
        requires
            self.wf(),
        ensures
            r@.len() == self.edges().len(),
            forall|i: int|
                0 <= i < r@.len() ==> (#[trigger] r@[i]).0.idx() == self.edges()[i].0 && r@[i].1.idx()
                    == self.edges()[i].1 && r@[i].2 == self.edges()[i].2,
    {
        let n = graph_edge_count_of(&self.graph);
        let mut r: Vec<(Node, Node, Edge)> = Vec::new();
        let mut i: usize = 0;
        while i < n
            invariant
                self.wf(),
                n == self.edges().len(),
                0 <= i <= n,
                r@.len() == i,
                forall|k: int|
                    0 <= k < i ==> (#[trigger] r@[k]).0.idx() == self.edges()[k].0 && r@[k].1.idx()
                        == self.edges()[k].1 && r@[k].2 == self.edges()[k].2,
            decreases n - i,
        {
            assert(self.edges()[i as int].0 < self.node_count_spec());
            let (a, b) = graph_edge_endpoints(&self.graph, i).unwrap();
            let w = graph_edge_weight(&self.graph, i).unwrap();
            r.push((Node(a), Node(b), w));
            i = i + 1;
        }
        r
    }

    /// Request that two nodes get the same rank.
    pub fn set_rank_same(&mut self, a: Node, b: Node)
        requires
            old(self).wf(),
            can_join(old(self).hints(), old(self).next_rank(), a.idx(), b.idx()),
        ensures
            final(self).wf(),
            final(self).hints() == joined(
                old(self).hints(),
                old(self).next_rank(),
                a.idx(),
                b.idx(),
            ),
            old(self).hints().contains_key(a.idx()) && !old(self).hints().contains_key(b.idx())
                ==> final(self).hints() == old(self).hints().insert(b.idx(), old(self).hints()[a.idx()]),
            !old(self).hints().contains_key(a.idx()) && old(self).hints().contains_key(b.idx())
                ==> final(self).hints() == old(self).hints().insert(a.idx(), old(self).hints()[b.idx()]),
            final(self).edges() == old(self).edges(),
            final(self).node_count_spec() == old(self).node_count_spec(),
            final(self).data() == old(self).data(),
            final(self).sizes() == old(self).sizes(),
            final(self).positions() == old(self).positions(),
            !final(self).is_fresh(),
    {
        self.fresh = false;
        self.rank_hints.set_rank(a, b)
    }
}

impl<NodeData: Clone> Gansner<NodeData> {
    /// The data and position of every node, in the order the nodes were added.
    ///
    /// The layout must be up to date (`layout` was called since the last change).
    pub fn iter_nodes(&self) -> (r: Vec<(NodeData, Point)>)
        requires
            self.wf(),
            self.is_fresh(),
        ensures
            r@.len() == self.node_count_spec(),
            forall|i: int|
                0 <= i < r@.len() ==> cloned(self.data()[i], (#[trigger] r@[i]).0) && r@[i].1
                    == self.positions()[i],
    {
        let mut r: Vec<(NodeData, Point)> = Vec::new();
        let mut i: usize = 0;
        while i < self.nodes.len()
            invariant
                self.wf(),
                0 <= i <= self.nodes@.len(),
                r@.len() == i,
                forall|k: int|
                    0 <= k < i ==> cloned(self.data()[k], (#[trigger] r@[k]).0) && r@[k].1
                        == self.positions()[k],
            decreases self.nodes@.len() - i,
        {
            let node = &self.nodes[i];
            r.push((node.ix.clone(), node.position));
            i = i + 1;
        }
        r
    }
}

/// Every edge of `s` joins two of the `n` nodes.
pub open spec fn edges_within(s: Seq<EdgeEntry>, n: nat) -> bool {
    forall|i: int| #![trigger s[i]] 0 <= i < s.len() ==> s[i].0 < n && s[i].1 < n
}

} // verus!
