//! The directed multigraph that holds the layout's edges: petgraph's `Graph`, seen through its
//! node count and its sequence of edges in index order.
use crate::Edge;
use petgraph::graph::{EdgeIndex, Graph, NodeIndex};
use petgraph::visit::EdgeRef;
use vstd::prelude::*;

verus! {

#[verifier::external_type_specification]
#[verifier::external_body]
#[verifier::reject_recursive_types(N)]
#[verifier::reject_recursive_types(E)]
#[verifier::reject_recursive_types(Ty)]
#[verifier::reject_recursive_types(Ix)]
pub struct ExGraph<N, E, Ty, Ix>(Graph<N, E, Ty, Ix>);

#[verifier::external_type_specification]
#[verifier::external_body]
pub struct ExDirected(petgraph::Directed);

/// The graph type of the layout: nodes carry nothing (what the layout knows of a node is kept
/// beside the graph, under the same index), edges carry an `Edge`.
pub type LayoutGraph = Graph<(), Edge>;

/// An edge as the contracts see it: source index, target index, weight.
pub type EdgeEntry = (nat, nat, Edge);

/// The number of nodes of `g`.
pub uninterp spec fn graph_node_count(g: LayoutGraph) -> nat;

/// The edges of `g`, in the order of their indices.
pub uninterp spec fn graph_edges(g: LayoutGraph) -> Seq<EdgeEntry>;

/// The edge indices, in increasing order, that petgraph's `greedy_feedback_arc_set` returns for
/// a directed graph whose edges, in index order, have the given endpoints.
pub uninterp spec fn greedy_feedback_arc_set_of(endpoints: Seq<(nat, nat)>) -> Seq<nat>;

/// The endpoints of each edge, in index order.
pub open spec fn endpoints(s: Seq<EdgeEntry>) -> Seq<(nat, nat)> {
    s.map_values(|e: EdgeEntry| (e.0, e.1))
}

/// The indices as mathematical integers.
pub open spec fn as_nats(s: Seq<usize>) -> Seq<nat> {
    s.map_values(|i: usize| i as nat)
}

/// Whether `fas` lists, in increasing order, exactly the edges of `s` that do not go forward
/// in the one-to-one node numbering `order`.
pub open spec fn backward_edges_of(s: Seq<(nat, nat)>, fas: Seq<nat>, order: spec_fn(nat) -> int) -> bool {
    &&& forall|a: nat, b: nat| a != b ==> #[trigger] order(a) != #[trigger] order(b)
    &&& forall|k: int, l: int| 0 <= k < l < fas.len() ==> fas[k] < fas[l]
    &&& forall|k: int| 0 <= k < fas.len() ==> fas[k] < s.len()
    &&& forall|i: nat|
        i < s.len() ==> (fas.contains(i) <==> order(#[trigger] s[i as int].0) >= order(s[i as int].1))
    &&& forall|i: int|
        0 <= i < s.len() && (no_edge_into(s, #[trigger] s[i].0) || no_edge_out_of(s, s[i].1))
            ==> order(s[i].0) < order(s[i].1)
}

/// Whether no edge of `s` ends at node `v`.
pub open spec fn no_edge_into(s: Seq<(nat, nat)>, v: nat) -> bool {
    forall|j: int| 0 <= j < s.len() ==> #[trigger] s[j].1 != v
}

/// Whether no edge of `s` starts at node `v`.
pub open spec fn no_edge_out_of(s: Seq<(nat, nat)>, v: nat) -> bool {
    forall|j: int| 0 <= j < s.len() ==> #[trigger] s[j].0 != v
}

/// An empty graph (petgraph's `Graph::new`).
#[verifier::external_body]
pub(crate) fn graph_new() -> (g: LayoutGraph)
    ensures
        graph_node_count(g) == 0,
        graph_edges(g) == Seq::<EdgeEntry>::empty(),
{
    Graph::new()
}

/// An empty graph with room reserved for the given numbers of nodes and edges
/// (petgraph's `Graph::with_capacity`). It reserves two vectors, of 8 bytes per node and
/// 32 bytes per edge here, and `Vec::with_capacity` panics when more than `isize::MAX` bytes are
/// asked for.
#[verifier::external_body]
pub(crate) fn graph_with_capacity(nodes: usize, edges: usize) -> (g: LayoutGraph)
    requires
        nodes as int * 8 <= isize::MAX,
        edges as int * 32 <= isize::MAX,
    ensures
        graph_node_count(g) == 0,
        graph_edges(g) == Seq::<EdgeEntry>::empty(),
{
    Graph::with_capacity(nodes, edges)
}

/// The number of nodes (petgraph's `Graph::node_count`).
#[verifier::external_body]
pub(crate) fn graph_node_count_of(g: &LayoutGraph) -> (n: usize)
    ensures
        n == graph_node_count(*g),
{
    g.node_count()
}

/// The number of edges (petgraph's `Graph::edge_count`).
#[verifier::external_body]
pub(crate) fn graph_edge_count_of(g: &LayoutGraph) -> (n: usize)
    ensures
        n == graph_edges(*g).len(),
{
    g.edge_count()
}

/// Adds a node and returns its index, which is the old node count (petgraph's
/// `Graph::add_node`, which panics when the index would be `u32::MAX`).
#[verifier::external_body]
pub(crate) fn graph_add_node(g: &mut LayoutGraph) -> (ix: u32)
    requires
        graph_node_count(*old(g)) < u32::MAX,
    ensures
        ix == graph_node_count(*old(g)),
        graph_node_count(*final(g)) == graph_node_count(*old(g)) + 1,
        graph_edges(*final(g)) == graph_edges(*old(g)),
{
    g.add_node(()).index() as u32
}

/// Appends an edge from `a` to `b` and returns its index, which is the old edge count
/// (petgraph's `Graph::add_edge`, which panics when a node does not exist or when the index
/// would be `u32::MAX`).
#[verifier::external_body]
pub(crate) fn graph_add_edge(g: &mut LayoutGraph, a: u32, b: u32, weight: Edge) -> (e: usize)
    requires
        a < graph_node_count(*old(g)),
        b < graph_node_count(*old(g)),
        graph_edges(*old(g)).len() < u32::MAX,
    ensures
        e == graph_edges(*old(g)).len(),
        graph_node_count(*final(g)) == graph_node_count(*old(g)),
        graph_edges(*final(g)) == graph_edges(*old(g)).push((a as nat, b as nat, weight)),
{
    g.add_edge(NodeIndex::new(a as usize), NodeIndex::new(b as usize), weight).index()
}

/// The source and target of edge `e` (petgraph's `Graph::edge_endpoints`).
#[verifier::external_body]
pub(crate) fn graph_edge_endpoints(g: &LayoutGraph, e: usize) -> (r: Option<(u32, u32)>)
    requires
        e < graph_edges(*g).len(),
    ensures
        r == Some((graph_edges(*g)[e as int].0 as u32, graph_edges(*g)[e as int].1 as u32)),
{
    match g.edge_endpoints(EdgeIndex::new(e)) {
        Some((a, b)) => Some((a.index() as u32, b.index() as u32)),
        None => None,
    }
}

/// The weight of edge `e` (petgraph's `Graph::edge_weight`).
#[verifier::external_body]
pub(crate) fn graph_edge_weight(g: &LayoutGraph, e: usize) -> (r: Option<Edge>)
    requires
        e < graph_edges(*g).len(),
    ensures
        r == Some(graph_edges(*g)[e as int].2),
{
    g.edge_weight(EdgeIndex::new(e)).copied()
}

/// The edges that petgraph's greedy heuristic (`greedy_feedback_arc_set`) picks so that the
/// graph without them has no cycle. petgraph numbers the nodes one to one and returns, in index
/// order, every edge that does not go forward in that numbering; loops among them. The
/// numbering puts a node without incoming edges before each node it has an edge to (such a node
/// leaves the sources bucket in the first round, before any pick by degree, or, once all its
/// successors are gone, as a sink in front of them), and a node without outgoing edges after
/// each node that has an edge to it.
#[verifier::external_body]
pub(crate) fn graph_feedback_arc_set(g: &LayoutGraph) -> (fas: Vec<usize>)
    ensures
        as_nats(fas@) == greedy_feedback_arc_set_of(endpoints(graph_edges(*g))),
        exists|order: spec_fn(nat) -> int|
            #[trigger] backward_edges_of(endpoints(graph_edges(*g)), as_nats(fas@), order),
{
    petgraph::algo::greedy_feedback_arc_set(g).map(|e| e.id().index()).collect()
}

} // verus!
