//! The layout algorithm: preparation of the graph for rank assignment.
use crate::graph::{
    as_nats, backward_edges_of, endpoints, graph_add_edge, graph_add_node, graph_edges,
    graph_feedback_arc_set, graph_new, graph_node_count, greedy_feedback_arc_set_of,
    no_edge_into, no_edge_out_of, EdgeEntry,
};
use crate::rank_set::{RankIdx, MAX_RANK, MIN_RANK};
use crate::{Edge, Gansner, Node};
use std::collections::HashMap;
use vstd::prelude::*;

verus! {

broadcast use {
    vstd::std_specs::hash::group_hash_axioms,
    Node::lemma_idx_injective,
    Node::lemma_from_index_spec,
};

/// The rank hint of node `v` in `hints`, if it has one.
pub open spec fn hint_of(hints: Map<u32, RankIdx>, v: nat) -> Option<RankIdx> {
    if v <= u32::MAX && hints.contains_key(v as u32) {
        Some(hints[v as u32])
    } else {
        None
    }
}

/// Whether nodes `v` and `w` belong together: they are the same node, or both have the same
/// rank hint.
pub open spec fn same_set(hints: Map<u32, RankIdx>, v: nat, w: nat) -> bool {
    v == w || (hint_of(hints, v) is Some && hint_of(hints, v) == hint_of(hints, w))
}

/// Whether some node is condensed into node `r`.
pub open spec fn stands_for_some(node_of: Seq<u32>, r: int) -> bool {
    exists|v: int| 0 <= v < node_of.len() && node_of[v] == r
}

/// Whether the value `r` occurs in `s` before index `v`.
pub open spec fn occurs_before(s: Seq<u32>, v: int, r: u32) -> bool {
    exists|u: int| 0 <= u < v && s[u] == r
}

/// Numbering in the order of first occurrence is kept by appending a value that occurs already,
/// or the next unused one.
proof fn lemma_push_keeps_first_order(before: Seq<u32>, x: u32, k: u32)
    requires
        forall|v: int, w: int|
            #![trigger before[v], before[w]]
            0 <= v < before.len() && 0 <= w < before.len() && before[w] < before[v] ==> occurs_before(before, v, before[w]),
        forall|v: int| 0 <= v < before.len() ==> #[trigger] before[v] < k,
        x == k || occurs_before(before, before.len() as int, x),
    ensures
        ({
            let after = before.push(x);
            forall|v: int, w: int|
                #![trigger after[v], after[w]]
                0 <= v < after.len() && 0 <= w < after.len() && after[w] < after[v] ==> occurs_before(after, v, after[w])
        }),
{
    let after = before.push(x);
    let len = before.len() as int;
    assert forall|v: int, w: int|
        #![trigger after[v], after[w]]
        0 <= v < after.len() && 0 <= w < after.len() && after[w] < after[v] implies occurs_before(after, v, after[w]) by {
        if v < len && w < len {
            assert(before[w] < before[v]);
            let u = choose|u: int| 0 <= u < v && before[u] == before[w];
            assert(after[u] == after[w]);
        } else if v == len && w < len {
            assert(after[w] == before[w]);
        } else if v < len && w == len {
            assert(after[v] == before[v]);
            assert(x < before[v]);
            assert(x != k);
            let u0 = choose|u: int| 0 <= u < len && before[u] == x;
            assert(before[u0] < before[v]);
            let u = choose|u: int| 0 <= u < v && before[u] == before[u0];
            assert(after[u] == x);
        }
    }
}

/// Whether `node_of` condenses the `n` nodes into `k` nodes, one for each set of nodes that
/// belong together, numbered in the order of their first node, with `min_node` standing for the
/// nodes of min rank and `max_node` for those of max rank.
pub open spec fn condenses(
    hints: Map<u32, RankIdx>,
    n: nat,
    node_of: Seq<u32>,
    k: nat,
    min_node: Option<u32>,
    max_node: Option<u32>,
) -> bool {
    &&& node_of.len() == n
    &&& k <= n
    &&& forall|v: int| 0 <= v < n ==> #[trigger] node_of[v] < k
    &&& forall|v: int, w: int|
        0 <= v < n && 0 <= w < n ==> (#[trigger] node_of[v] == #[trigger] node_of[w] <==> same_set(
            hints,
            v as nat,
            w as nat,
        ))
    &&& forall|r: int| 0 <= r < k ==> #[trigger] stands_for_some(node_of, r)
    &&& forall|v: int, w: int|
        #![trigger node_of[v], node_of[w]]
        0 <= v < n && 0 <= w < n && node_of[w] < node_of[v] ==> occurs_before(node_of, v, node_of[w])
    &&& (min_node is Some <==> exists|v: int|
        0 <= v < n && #[trigger] hint_of(hints, v as nat) == Some(MIN_RANK))
    &&& forall|v: int|
        0 <= v < n && #[trigger] hint_of(hints, v as nat) == Some(MIN_RANK) ==> min_node == Some(
            node_of[v],
        )
    &&& (max_node is Some <==> exists|v: int|
        0 <= v < n && #[trigger] hint_of(hints, v as nat) == Some(MAX_RANK))
    &&& forall|v: int|
        0 <= v < n && #[trigger] hint_of(hints, v as nat) == Some(MAX_RANK) ==> max_node == Some(
            node_of[v],
        )
}

/// The graph that ranks are assigned on, and how it stands for the user's graph.
pub struct RankAssignmentAdjustment {
    /// The condensed node that stands for each node.
    node_of: Vec<u32>,
    /// The number of condensed nodes, present or removed.
    node_count: u32,
    /// The condensed node that stands for the nodes of min rank, if any.
    min_node: Option<u32>,
    /// The condensed node that stands for the nodes of max rank, if any.
    max_node: Option<u32>,
    /// Whether each condensed node is in the graph (leaves outside every set are removed).
    present: Vec<bool>,
    /// The edges of the graph.
    edges: Vec<RankEdge>,
    /// The edge that stands for each edge of the user's graph, if any.
    edge_of: Vec<Option<usize>>,
}

impl RankAssignmentAdjustment {
    pub closed spec fn node_of(&self) -> Seq<u32> {
        self.node_of@
    }

    pub closed spec fn node_count(&self) -> nat {
        self.node_count as nat
    }

    pub closed spec fn min_node(&self) -> Option<u32> {
        self.min_node
    }

    pub closed spec fn max_node(&self) -> Option<u32> {
        self.max_node
    }

    pub closed spec fn present(&self) -> Seq<bool> {
        self.present@
    }

    pub closed spec fn edges(&self) -> Seq<RankEdge> {
        self.edges@
    }

    pub closed spec fn edge_of(&self) -> Seq<Option<usize>> {
        self.edge_of@
    }

    /// The condensed node that stands for each node of the user's graph, by node index.
    pub fn condensed_nodes(&self) -> (r: Vec<u32>)
        ensures
            r@ == self.node_of(),
    {
        let mut r: Vec<u32> = Vec::new();
        let mut i: usize = 0;
        while i < self.node_of.len()
            invariant
                0 <= i <= self.node_of@.len(),
                r@ == self.node_of@.take(i as int),
            decreases self.node_of@.len() - i,
        {
            r.push(self.node_of[i]);
            proof {
                assert(r@ =~= self.node_of@.take(i + 1));
            }
            i = i + 1;
        }
        proof {
            assert(r@ =~= self.node_of@);
        }
        r
    }

    /// The number of condensed nodes, present or removed.
    pub fn condensed_count(&self) -> (r: u32)
        ensures
            r == self.node_count(),
    {
        self.node_count
    }

    /// The condensed node that stands for the nodes of min rank, if any.
    pub fn min_rank_node(&self) -> (r: Option<u32>)
        ensures
            r == self.min_node(),
    {
        self.min_node
    }

    /// The condensed node that stands for the nodes of max rank, if any.
    pub fn max_rank_node(&self) -> (r: Option<u32>)
        ensures
            r == self.max_node(),
    {
        self.max_node
    }

    /// Whether each condensed node is in the graph that ranks are assigned on.
    pub fn present_nodes(&self) -> (r: Vec<bool>)
        ensures
            r@ == self.present(),
    {
        let mut r: Vec<bool> = Vec::new();
        let mut i: usize = 0;
        while i < self.present.len()
            invariant
                0 <= i <= self.present@.len(),
                r@ == self.present@.take(i as int),
            decreases self.present@.len() - i,
        {
            r.push(self.present[i]);
            proof {
                assert(r@ =~= self.present@.take(i + 1));
            }
            i = i + 1;
        }
        proof {
            assert(r@ =~= self.present@);
        }
        r
    }

    /// The edges of the graph that ranks are assigned on, each as its start, its end and its
    /// minimum rank length.
    pub fn rank_edges(&self) -> (r: Vec<(u32, u32, RankIdx)>)
        ensures
            r@.len() == self.edges().len(),
            forall|i: int|
                0 <= i < r@.len() ==> #[trigger] r@[i] == (self.edges()[i].from, self.edges()[i].to, self.edges()[i].min_rank_len),
    {
        let mut r: Vec<(u32, u32, RankIdx)> = Vec::new();
        let mut i: usize = 0;
        while i < self.edges.len()
            invariant
                0 <= i <= self.edges@.len(),
                r@.len() == i,
                forall|i2: int|
                    0 <= i2 < i ==> #[trigger] r@[i2] == (self.edges@[i2].from, self.edges@[i2].to, self.edges@[i2].min_rank_len),
            decreases self.edges@.len() - i,
        {
            let e = self.edges[i];
            r.push((e.from, e.to, e.min_rank_len));
            i = i + 1;
        }
        r
    }

    /// The edge of the graph that ranks are assigned on that stands for each edge of the user's
    /// graph, by edge index; `None` for an edge that it leaves out.
    pub fn edge_for_each(&self) -> (r: Vec<Option<usize>>)
        ensures
            r@ == self.edge_of(),
    {
        let mut r: Vec<Option<usize>> = Vec::new();
        let mut i: usize = 0;
        while i < self.edge_of.len()
            invariant
                0 <= i <= self.edge_of@.len(),
                r@ == self.edge_of@.take(i as int),
            decreases self.edge_of@.len() - i,
        {
            r.push(self.edge_of[i]);
            proof {
                assert(r@ =~= self.edge_of@.take(i + 1));
            }
            i = i + 1;
        }
        proof {
            assert(r@ =~= self.edge_of@);
        }
        r
    }
}

/// An edge of the graph that ranks are assigned on.
#[derive(Clone, Copy)]
pub struct RankEdge {
    pub from: u32,
    pub to: u32,
    /// Minimum number of ranks between the edge's ends.
    pub min_rank_len: RankIdx,
}

/// The two condensed nodes that user edge `j` of `s` joins, pointed out of the min node and
/// into the max node.
pub open spec fn condensed_pair(
    s: Seq<EdgeEntry>,
    node_of: Seq<u32>,
    min_node: Option<u32>,
    max_node: Option<u32>,
    j: int,
) -> (u32, u32) {
    let a = node_of[s[j].0 as int];
    let b = node_of[s[j].1 as int];
    if min_node == Some(b) || max_node == Some(a) {
        (b, a)
    } else {
        (a, b)
    }
}

/// Whether user edge `j` of `s` joins two nodes that are condensed into one.
pub open spec fn condensed_loop(s: Seq<EdgeEntry>, node_of: Seq<u32>, j: int) -> bool {
    node_of[s[j].0 as int] == node_of[s[j].1 as int]
}

/// Whether some user edge of `s` that `edge_of` maps to edge `e` asks for minimum rank length
/// `len`.
pub open spec fn has_member_of_len(s: Seq<EdgeEntry>, edge_of: Seq<Option<usize>>, e: int, len: RankIdx) -> bool {
    exists|j: int| 0 <= j < s.len() && edge_of[j] == Some(e as usize) && s[j].2.min_rank_len == len
}

/// Whether the value `r` occurs in `s` before index `v`.
pub open spec fn opt_occurs_before(s: Seq<Option<usize>>, v: int, r: Option<usize>) -> bool {
    exists|u: int| 0 <= u < v && s[u] == r
}

/// Numbering in the order of first occurrence is kept by appending `None`, a value that occurs
/// already, or the next unused one.
proof fn lemma_push_keeps_first_order_opt(before: Seq<Option<usize>>, x: Option<usize>, next: nat)
    requires
        forall|j: int, j2: int|
            #![trigger before[j], before[j2]]
            0 <= j < before.len() && 0 <= j2 < before.len() && before[j] is Some && before[j2] is Some
                && before[j2]->0 < before[j]->0 ==> opt_occurs_before(before, j, before[j2]),
        forall|j: int| 0 <= j < before.len() && #[trigger] before[j] is Some ==> before[j]->0 < next,
        x is None || x->0 == next || opt_occurs_before(before, before.len() as int, x),
    ensures
        ({
            let after = before.push(x);
            forall|j: int, j2: int|
                #![trigger after[j], after[j2]]
                0 <= j < after.len() && 0 <= j2 < after.len() && after[j] is Some && after[j2] is Some
                    && after[j2]->0 < after[j]->0 ==> opt_occurs_before(after, j, after[j2])
        }),
{
    let after = before.push(x);
    let len = before.len() as int;
    assert forall|j: int, j2: int|
        #![trigger after[j], after[j2]]
        0 <= j < after.len() && 0 <= j2 < after.len() && after[j] is Some && after[j2] is Some
            && after[j2]->0 < after[j]->0 implies opt_occurs_before(after, j, after[j2]) by {
        if j < len && j2 < len {
            assert(before[j2]->0 < before[j]->0);
            let u = choose|u: int| 0 <= u < j && before[u] == before[j2];
            assert(after[u] == after[j2]);
        } else if j == len && j2 < len {
            assert(after[j2] == before[j2]);
        } else if j < len && j2 == len {
            assert(after[j] == before[j]);
            assert(x->0 < before[j]->0);
            assert(x->0 != next);
            let u0 = choose|u: int| 0 <= u < len && before[u] == x;
            assert(before[u0]->0 < before[j]->0);
            let u = choose|u: int| 0 <= u < j && before[u] == before[u0];
            assert(after[u] == x);
        }
    }
}

/// One more user edge, mapped to no edge, to a merged edge that stands for earlier ones, or to
/// a new last edge, keeps the merged edges in the order of their first user edge.
proof fn lemma_merge_step_keeps_order(
    s: Seq<EdgeEntry>,
    node_of: Seq<u32>,
    k: nat,
    min_node: Option<u32>,
    max_node: Option<u32>,
    redges: Seq<RankEdge>,
    edge_of: Seq<Option<usize>>,
    x: Option<usize>,
)
    requires
        merges(s, node_of, k, min_node, max_node, redges, edge_of),
        x is None || x->0 <= redges.len(),
    ensures
        ({
            let after = edge_of.push(x);
            forall|j: int, j2: int|
                #![trigger after[j], after[j2]]
                0 <= j < after.len() && 0 <= j2 < after.len() && after[j] is Some && after[j2] is Some
                    && after[j2]->0 < after[j]->0 ==> opt_occurs_before(after, j, after[j2])
        }),
{
    if x is Some && x->0 < redges.len() {
        let e = x->0 as int;
        assert(has_member_of_len(s, edge_of, e, redges[e].min_rank_len));
        let j3 = choose|j3: int| 0 <= j3 < s.len() && edge_of[j3] == Some(e as usize) && s[j3].2.min_rank_len == redges[e].min_rank_len;
        assert(opt_occurs_before(edge_of, edge_of.len() as int, x));
    }
    lemma_push_keeps_first_order_opt(edge_of, x, redges.len());
}

/// Whether `redges` holds one edge for each pair of condensed nodes that user edges join
/// (loops left out, edges pointed out of the min node and into the max node), in the order of
/// the first user edge that each stands for, `edge_of` telling for each user edge the edge that
/// stands for it, and each edge asking for the largest minimum rank length among the user edges
/// that it stands for.
pub open spec fn merges(
    s: Seq<EdgeEntry>,
    node_of: Seq<u32>,
    k: nat,
    min_node: Option<u32>,
    max_node: Option<u32>,
    redges: Seq<RankEdge>,
    edge_of: Seq<Option<usize>>,
) -> bool {
    &&& edge_of.len() == s.len()
    &&& forall|j: int| 0 <= j < s.len() ==> (#[trigger] edge_of[j] is None <==> condensed_loop(s, node_of, j))
    &&& forall|j: int|
        0 <= j < s.len() && #[trigger] edge_of[j] is Some ==> {
            let e = edge_of[j]->0 as int;
            &&& e < redges.len()
            &&& (redges[e].from, redges[e].to) == condensed_pair(s, node_of, min_node, max_node, j)
            &&& s[j].2.min_rank_len <= redges[e].min_rank_len
        }
    &&& forall|e: int|
        0 <= e < redges.len() ==> #[trigger] has_member_of_len(s, edge_of, e, redges[e].min_rank_len)
    &&& forall|j: int, j2: int|
        #![trigger edge_of[j], edge_of[j2]]
        0 <= j < s.len() && 0 <= j2 < s.len() && edge_of[j] is Some && edge_of[j2] is Some
            && edge_of[j2]->0 < edge_of[j]->0 ==> opt_occurs_before(edge_of, j, edge_of[j2])
    &&& forall|e1: int, e2: int|
        0 <= e1 < redges.len() && 0 <= e2 < redges.len() && e1 != e2 ==> (#[trigger] redges[e1].from,
        redges[e1].to) != (#[trigger] redges[e2].from, redges[e2].to)
    &&& forall|e: int|
        0 <= e < redges.len() ==> #[trigger] redges[e].from != redges[e].to && redges[e].from < k
            && redges[e].to < k
}

/// Whether some user edge of `s` that `edge_of` maps to edge `e` asks for minimum rank length
/// `len`, with the index written as an integer.
pub open spec fn has_member(s: Seq<EdgeEntry>, edge_of: Seq<Option<usize>>, e: int, len: RankIdx) -> bool {
    exists|j: int| 0 <= j < s.len() && edge_of[j] is Some && edge_of[j]->0 == e && s[j].2.min_rank_len == len
}

/// What merging does to each user edge: an edge within one condensed node stands for no edge;
/// any other edge stands for an edge between the condensed nodes of its ends, which keeps the
/// user's direction unless the edge goes into the min node or out of the max node, and then
/// points the other way; each merged edge asks for the largest minimum rank length of the
/// user edges that it stands for.
pub proof fn lemma_merges_keeps_direction(
    s: Seq<EdgeEntry>,
    node_of: Seq<u32>,
    k: nat,
    min_node: Option<u32>,
    max_node: Option<u32>,
    redges: Seq<RankEdge>,
    edge_of: Seq<Option<usize>>,
)
    requires
        merges(s, node_of, k, min_node, max_node, redges, edge_of),
        redges.len() <= usize::MAX,
    ensures
        forall|j: int|
            0 <= j < s.len() ==> (#[trigger] edge_of[j] is None <==> node_of[s[j].0 as int] == node_of[s[j].1 as int]),
        forall|j: int|
            0 <= j < s.len() && #[trigger] edge_of[j] is Some && min_node != Some(node_of[s[j].1 as int])
                && max_node != Some(node_of[s[j].0 as int]) ==> redges[edge_of[j]->0 as int].from == node_of[s[j].0 as int]
                && redges[edge_of[j]->0 as int].to == node_of[s[j].1 as int],
        forall|j: int|
            0 <= j < s.len() && #[trigger] edge_of[j] is Some && (min_node == Some(node_of[s[j].1 as int])
                || max_node == Some(node_of[s[j].0 as int])) ==> redges[edge_of[j]->0 as int].from == node_of[s[j].1 as int]
                && redges[edge_of[j]->0 as int].to == node_of[s[j].0 as int],
        forall|j: int|
            0 <= j < s.len() && #[trigger] edge_of[j] is Some ==> edge_of[j]->0 < redges.len()
                && s[j].2.min_rank_len <= redges[edge_of[j]->0 as int].min_rank_len,
        forall|e: int|
            0 <= e < redges.len() ==> #[trigger] has_member(s, edge_of, e, redges[e].min_rank_len),
{
    assert forall|e: int| 0 <= e < redges.len() implies #[trigger] has_member(s, edge_of, e, redges[e].min_rank_len) by {
        assert(has_member_of_len(s, edge_of, e, redges[e].min_rank_len));
        let j = choose|j: int| 0 <= j < s.len() && edge_of[j] == Some(e as usize) && s[j].2.min_rank_len == redges[e].min_rank_len;
        assert(edge_of[j] is Some && edge_of[j]->0 == e);
    }
}

/// The number of edges of `s` that start or end at node `r`.
pub open spec fn touch_count(s: Seq<RankEdge>, r: nat) -> nat
    decreases s.len(),
{
    if s.len() == 0 {
        0
    } else {
        touch_count(s.drop_last(), r) + if s.last().from == r || s.last().to == r {
            1nat
        } else {
            0nat
        }
    }
}

/// Whether condensed node `r` stands for a node with a rank hint.
pub open spec fn is_set_node(hints: Map<u32, RankIdx>, node_of: Seq<u32>, r: nat) -> bool {
    exists|v: int| 0 <= v < node_of.len() && hint_of(hints, v as nat) is Some && node_of[v] == r
}

/// Whether condensed node `r` is a leaf of `s` outside every set of hinted nodes: it has
/// exactly one edge and stands for no node with a rank hint.
pub open spec fn is_free_leaf(hints: Map<u32, RankIdx>, node_of: Seq<u32>, s: Seq<RankEdge>, r: nat) -> bool {
    touch_count(s, r) == 1 && !is_set_node(hints, node_of, r)
}

/// A condensed node that stands for a node with a rank hint (the first and the last rank
/// included) is never removed as a leaf, whatever its edges.
pub proof fn lemma_hinted_nodes_stay(hints: Map<u32, RankIdx>, node_of: Seq<u32>, s: Seq<RankEdge>, v: int)
    requires
        0 <= v < node_of.len(),
        hint_of(hints, v as nat) is Some,
    ensures
        !is_free_leaf(hints, node_of, s, node_of[v] as nat),
{
    assert(is_set_node(hints, node_of, node_of[v] as nat));
}

/// Whether `out` and `edge_of2` are `redges` and `edge_of` after the nodes that `present` leaves
/// out are removed with their edges: `out` keeps, in order, the edges between present nodes.
pub open spec fn drops_nodes(
    redges: Seq<RankEdge>,
    edge_of: Seq<Option<usize>>,
    present: Seq<bool>,
    out: Seq<RankEdge>,
    new_index: Seq<Option<usize>>,
    edge_of2: Seq<Option<usize>>,
) -> bool {
    &&& new_index.len() == redges.len()
    &&& forall|e: int|
        0 <= e < redges.len() ==> (#[trigger] new_index[e] is Some <==> present[redges[e].from as int]
            && present[redges[e].to as int])
    &&& forall|e: int|
        0 <= e < redges.len() && #[trigger] new_index[e] is Some ==> new_index[e]->0 < out.len()
            && out[new_index[e]->0 as int] == redges[e]
    &&& forall|e1: int, e2: int|
        0 <= e1 < e2 < redges.len() && #[trigger] new_index[e1] is Some && #[trigger] new_index[e2] is Some
            ==> new_index[e1]->0 < new_index[e2]->0
    &&& forall|i: int| 0 <= i < out.len() ==> #[trigger] kept_from(new_index, i)
    &&& edge_of2.len() == edge_of.len()
    &&& forall|j: int|
        0 <= j < edge_of.len() ==> #[trigger] edge_of2[j] == match edge_of[j] {
            Some(e) => if e < new_index.len() { new_index[e as int] } else { None },
            None => None,
        }
}

/// Whether some edge is kept as edge `i`.
pub open spec fn kept_from(new_index: Seq<Option<usize>>, i: int) -> bool {
    exists|e: int| 0 <= e < new_index.len() && new_index[e] == Some(i as usize)
}

/// The endpoints of each edge of `s`, in order.
pub open spec fn rank_endpoints(s: Seq<RankEdge>) -> Seq<(nat, nat)> {
    s.map_values(|e: RankEdge| (e.from as nat, e.to as nat))
}

/// The same edge pointing the other way.
pub open spec fn flip_rank_edge(e: RankEdge) -> RankEdge {
    RankEdge { from: e.to, to: e.from, min_rank_len: e.min_rank_len }
}

/// Whether some numbering of the nodes increases along every edge of `s`.
pub open spec fn rank_acyclic(s: Seq<RankEdge>) -> bool {
    exists|order: spec_fn(nat) -> int| #[trigger] goes_forward(s, order)
}

/// Whether `order` increases along every edge of `s`.
pub open spec fn goes_forward(s: Seq<RankEdge>, order: spec_fn(nat) -> int) -> bool {
    forall|i: int| 0 <= i < s.len() ==> order(#[trigger] s[i].from as nat) < order(s[i].to as nat)
}

/// The min node and the max node of a condensation differ, and each is below `k`.
pub proof fn lemma_condensed_ends_differ(
    hints: Map<u32, RankIdx>,
    n: nat,
    node_of: Seq<u32>,
    k: nat,
    min_node: Option<u32>,
    max_node: Option<u32>,
)
    requires
        condenses(hints, n, node_of, k, min_node, max_node),
    ensures
        min_node is Some && max_node is Some ==> min_node != max_node,
        min_node matches Some(m) ==> m < k,
        max_node matches Some(m) ==> m < k,
{
    if min_node is Some {
        let v = choose|v: int| 0 <= v < n && #[trigger] hint_of(hints, v as nat) == Some(MIN_RANK);
        assert(node_of[v] < k);
        if max_node is Some {
            let w = choose|w: int| 0 <= w < n && #[trigger] hint_of(hints, w as nat) == Some(MAX_RANK);
            assert(!same_set(hints, v as nat, w as nat));
        }
    }
    if max_node is Some {
        let w = choose|w: int| 0 <= w < n && #[trigger] hint_of(hints, w as nat) == Some(MAX_RANK);
        assert(node_of[w] < k);
    }
}

/// Merged edges point out of the min node and into the max node.
pub proof fn lemma_merged_respects_ends(
    s: Seq<EdgeEntry>,
    node_of: Seq<u32>,
    k: nat,
    min_node: Option<u32>,
    max_node: Option<u32>,
    redges: Seq<RankEdge>,
    edge_of: Seq<Option<usize>>,
)
    requires
        merges(s, node_of, k, min_node, max_node, redges, edge_of),
        min_node is Some && max_node is Some ==> min_node != max_node,
        redges.len() <= usize::MAX,
    ensures
        min_node matches Some(m) ==> no_edge_into(rank_endpoints(redges), m as nat),
        max_node matches Some(m) ==> no_edge_out_of(rank_endpoints(redges), m as nat),
{
    assert forall|e: int| #![trigger redges[e]] 0 <= e < redges.len() implies
        (min_node matches Some(m) ==> redges[e].to != m) && (max_node matches Some(m) ==> redges[e].from != m) by {
        assert(has_member_of_len(s, edge_of, e, redges[e].min_rank_len));
        let j = choose|j: int| 0 <= j < s.len() && edge_of[j] == Some(e as usize) && s[j].2.min_rank_len == redges[e].min_rank_len;
        assert(edge_of[j] is Some);
        assert(edge_of[j]->0 as int == e);
        assert(!condensed_loop(s, node_of, j));
        let a = node_of[s[j].0 as int];
        let b = node_of[s[j].1 as int];
        assert(a != b);
        assert((redges[e].from, redges[e].to) == condensed_pair(s, node_of, min_node, max_node, j));
    }
    if min_node is Some {
        assert forall|x: int| 0 <= x < redges.len() implies #[trigger] rank_endpoints(redges)[x].1 != min_node->0 as nat by {
            assert(redges[x].to != min_node->0);
        }
    }
    if max_node is Some {
        assert forall|x: int| 0 <= x < redges.len() implies #[trigger] rank_endpoints(redges)[x].0 != max_node->0 as nat by {
            assert(redges[x].from != max_node->0);
        }
    }
}

/// The added edges point out of the min node and into the max node, so the graph keeps doing
/// so.
pub proof fn lemma_sources_and_sinks_keep_ends(
    k: nat,
    present: Seq<bool>,
    min_node: Option<u32>,
    max_node: Option<u32>,
    s: Seq<RankEdge>,
    out: Seq<RankEdge>,
)
    requires
        adds_sources_and_sinks(k, present, min_node, max_node, s, out),
        min_node matches Some(m) ==> no_edge_into(rank_endpoints(s), m as nat),
        max_node matches Some(m) ==> no_edge_out_of(rank_endpoints(s), m as nat),
        min_node is Some && max_node is Some ==> min_node != max_node,
    ensures
        min_node matches Some(m) ==> no_edge_into(rank_endpoints(out), m as nat),
        max_node matches Some(m) ==> no_edge_out_of(rank_endpoints(out), m as nat),
{
    if min_node is Some {
        assert forall|x: int| 0 <= x < out.len() implies #[trigger] rank_endpoints(out)[x].1 != min_node->0 as nat by {
            if x < s.len() {
                assert(out.take(s.len() as int)[x] == out[x]);
                assert(rank_endpoints(s)[x].1 != min_node->0 as nat);
            }
        }
    }
    if max_node is Some {
        assert forall|x: int| 0 <= x < out.len() implies #[trigger] rank_endpoints(out)[x].0 != max_node->0 as nat by {
            if x < s.len() {
                assert(out.take(s.len() as int)[x] == out[x]);
                assert(rank_endpoints(s)[x].0 != max_node->0 as nat);
            }
        }
    }
}

/// Reverse the edges of `s` whose indices `picked` lists; the others stay as they are.
pub fn reverse_picked_edges(s: &Vec<RankEdge>, picked: &Vec<usize>) -> (out: Vec<RankEdge>)
    requires
        forall|q: int| 0 <= q < picked@.len() ==> #[trigger] picked@[q] < s@.len(),
    ensures
        out@.len() == s@.len(),
        forall|i: int|
            0 <= i < s@.len() ==> #[trigger] out@[i] == if picked@.contains(i as usize) {
                flip_rank_edge(s@[i])
            } else {
                s@[i]
            },
{
    let mut marks: Vec<bool> = Vec::new();
    while marks.len() < s.len()
        invariant
            marks@.len() <= s@.len(),
            forall|q: int| 0 <= q < marks@.len() ==> !#[trigger] marks@[q],
        decreases s@.len() - marks@.len(),
    {
        marks.push(false);
    }
    let mut q: usize = 0;
    while q < picked.len()
        invariant
            marks@.len() == s@.len(),
            0 <= q <= picked@.len(),
            forall|q2: int| 0 <= q2 < picked@.len() ==> #[trigger] picked@[q2] < s@.len(),
            forall|x: int|
                0 <= x < s@.len() ==> (#[trigger] marks@[x] <==> exists|q2: int|
                    0 <= q2 < q && #[trigger] picked@[q2] == x),
        decreases picked@.len() - q,
    {
        let x = picked[q];
        marks.set(x, true);
        proof {
            assert forall|y: int| 0 <= y < s@.len() implies (#[trigger] marks@[y] <==> exists|q2: int|
                0 <= q2 < q + 1 && #[trigger] picked@[q2] == y) by {
                if y == x {
                    assert(picked@[q as int] == y);
                }
            }
        }
        q = q + 1;
    }
    let mut out: Vec<RankEdge> = Vec::new();
    let mut i: usize = 0;
    while i < s.len()
        invariant
            marks@.len() == s@.len(),
            0 <= i <= s@.len(),
            out@.len() == i,
            forall|i2: int| 0 <= i2 < i ==> #[trigger] out@[i2] == if marks@[i2] {
                flip_rank_edge(s@[i2])
            } else {
                s@[i2]
            },
        decreases s@.len() - i,
    {
        let e = s[i];
        if marks[i] {
            out.push(RankEdge { from: e.to, to: e.from, min_rank_len: e.min_rank_len });
        } else {
            out.push(e);
        }
        i = i + 1;
    }
    proof {
        assert forall|x: int| 0 <= x < s@.len() implies #[trigger] marks@[x] == picked@.contains(x as usize) by {
            if marks@[x] {
                let q2 = choose|q2: int| 0 <= q2 < picked@.len() && #[trigger] picked@[q2] == x;
                assert(picked@[q2] == x as usize);
            }
            if picked@.contains(x as usize) {
                let q2 = choose|q2: int| 0 <= q2 < picked@.len() && picked@[q2] == x as usize;
                assert(picked@[q2] == x);
            }
        }
    }
    out
}

/// Break the cycles of the edges `s` among `k` nodes: reverse each edge that petgraph's
/// greedy feedback arc set heuristic picks.
fn break_cycles(k: u32, s: &Vec<RankEdge>) -> (out: Vec<RankEdge>)
    requires
        s@.len() <= u32::MAX,
        forall|e: int| 0 <= e < s@.len() ==> #[trigger] s@[e].from != s@[e].to && s@[e].from < k && s@[e].to < k,
    ensures
        out@.len() == s@.len(),
        forall|i: int|
            0 <= i < s@.len() ==> #[trigger] out@[i] == if greedy_feedback_arc_set_of(rank_endpoints(s@)).contains(
                i as nat,
            ) {
                flip_rank_edge(s@[i])
            } else {
                s@[i]
            },
        rank_acyclic(out@),
        forall|v: nat| no_edge_into(rank_endpoints(s@), v) ==> no_edge_into(rank_endpoints(out@), v),
        forall|v: nat| no_edge_out_of(rank_endpoints(s@), v) ==> no_edge_out_of(rank_endpoints(out@), v),
{
    let mut g = graph_new();
    let mut i: u32 = 0;
    while i < k
        invariant
            0 <= i <= k,
            graph_node_count(g) == i,
            graph_edges(g) == Seq::<EdgeEntry>::empty(),
        decreases k - i,
    {
        graph_add_node(&mut g);
        i = i + 1;
    }
    let mut j: usize = 0;
    while j < s.len()
        invariant
            0 <= j <= s@.len(),
            s@.len() <= u32::MAX,
            graph_node_count(g) == k,
            forall|e: int| 0 <= e < s@.len() ==> #[trigger] s@[e].from != s@[e].to && s@[e].from < k && s@[e].to < k,
            graph_edges(g).len() == j,
            forall|e: int| 0 <= e < j ==> (#[trigger] graph_edges(g)[e].0, graph_edges(g)[e].1) == (s@[e].from as nat, s@[e].to as nat),
        decreases s@.len() - j,
    {
        let e = s[j];
        graph_add_edge(&mut g, e.from, e.to, Edge { min_rank_len: e.min_rank_len, weight_bits: 0 });
        j = j + 1;
    }
    proof {
        assert(endpoints(graph_edges(g)) =~= rank_endpoints(s@));
    }
    let fas = graph_feedback_arc_set(&g);
    let ghost ends = rank_endpoints(s@);
    let ghost fas_nats = as_nats(fas@);
    let ghost order = choose|order: spec_fn(nat) -> int| #[trigger] backward_edges_of(ends, fas_nats, order);
    assert(backward_edges_of(ends, fas_nats, order));
    proof {
        assert forall|q: int| 0 <= q < fas@.len() implies #[trigger] fas@[q] < s@.len() by {
            assert(fas_nats[q] == fas@[q] as nat);
        }
    }
    let out = reverse_picked_edges(s, &fas);
    proof {
        assert forall|x: int| 0 <= x < s@.len() implies #[trigger] fas@.contains(x as usize) == fas_nats.contains(x as nat) by {
            if fas@.contains(x as usize) {
                let q2 = choose|q2: int| 0 <= q2 < fas@.len() && fas@[q2] == x as usize;
                assert(fas_nats[q2] == x as nat);
            }
            if fas_nats.contains(x as nat) {
                let q2 = choose|q2: int| 0 <= q2 < fas_nats.len() && fas_nats[q2] == x as nat;
                assert(fas@[q2] == x);
            }
        }
        assert forall|x: int| 0 <= x < s@.len() implies
            order(#[trigger] out@[x].from as nat) < order(out@[x].to as nat) && (fas@.contains(x as usize) <==> order(ends[x].0) >= order(ends[x].1)) by {
            let xn = x as nat;
            assert(ends[xn as int] == (s@[x].from as nat, s@[x].to as nat));
            assert(fas_nats.contains(xn) <==> order(ends[xn as int].0) >= order(ends[xn as int].1));
            assert(order(s@[x].from as nat) != order(s@[x].to as nat));
        }
        assert(goes_forward(out@, order));
        assert forall|v: nat| no_edge_into(ends, v) implies no_edge_into(rank_endpoints(out@), v) by {
            assert forall|x: int| 0 <= x < out@.len() implies #[trigger] rank_endpoints(out@)[x].1 != v by {
                assert(ends[x].1 != v);
                if fas@.contains(x as usize) {
                    if s@[x].from == v {
                        assert(no_edge_into(ends, ends[x].0));
                    }
                }
            }
        }
        assert forall|v: nat| no_edge_out_of(ends, v) implies no_edge_out_of(rank_endpoints(out@), v) by {
            assert forall|x: int| 0 <= x < out@.len() implies #[trigger] rank_endpoints(out@)[x].0 != v by {
                assert(ends[x].0 != v);
                if fas@.contains(x as usize) {
                    if s@[x].to == v {
                        assert(no_edge_out_of(ends, ends[x].1));
                    }
                }
            }
        }
    }
    out
}

/// Whether `out` is `s` followed by an edge of minimum rank length 0 from the min node to each
/// other present node without incoming edges, then one from each present node without outgoing
/// edges other than the max node to the max node (where there is such a node).
pub open spec fn adds_sources_and_sinks(
    k: nat,
    present: Seq<bool>,
    min_node: Option<u32>,
    max_node: Option<u32>,
    s: Seq<RankEdge>,
    out: Seq<RankEdge>,
) -> bool {
    &&& out.len() >= s.len()
    &&& out.take(s.len() as int) == s
    &&& forall|i: int|
        s.len() <= i < out.len() ==> (#[trigger] out[i]).min_rank_len == 0 && out[i].from < k
            && out[i].to < k && ((min_node == Some(out[i].from) && out[i].to != out[i].from
            && present[out[i].to as int] && no_edge_into(rank_endpoints(s), out[i].to as nat)) || (
        max_node == Some(out[i].to) && out[i].to != out[i].from && present[out[i].from as int]
            && no_edge_out_of(rank_endpoints(s), out[i].from as nat)))
    &&& forall|r: int|
        0 <= r < k && min_node is Some && min_node != Some(r as u32) && present[r] && no_edge_into(
            rank_endpoints(s),
            r as nat,
        ) ==> #[trigger] out.contains(RankEdge { from: min_node->0, to: r as u32, min_rank_len: 0 })
    &&& forall|r: int|
        0 <= r < k && max_node is Some && max_node != Some(r as u32) && present[r] && no_edge_out_of(
            rank_endpoints(s),
            r as nat,
        ) ==> #[trigger] out.contains(RankEdge { from: r as u32, to: max_node->0, min_rank_len: 0 })
}

/// After the edges are added, every present node but the min node has an edge into it, where
/// there is a min node, and every present node but the max node has an edge out of it, where
/// there is a max node.
pub proof fn lemma_sources_and_sinks_cover(
    k: nat,
    present: Seq<bool>,
    min_node: Option<u32>,
    max_node: Option<u32>,
    s: Seq<RankEdge>,
    out: Seq<RankEdge>,
)
    requires
        adds_sources_and_sinks(k, present, min_node, max_node, s, out),
        k <= u32::MAX,
        present.len() == k,
    ensures
        forall|r: int|
            0 <= r < k && min_node is Some && min_node != Some(r as u32) && #[trigger] present[r]
                ==> !no_edge_into(rank_endpoints(out), r as nat),
        forall|r: int|
            0 <= r < k && max_node is Some && max_node != Some(r as u32) && #[trigger] present[r]
                ==> !no_edge_out_of(rank_endpoints(out), r as nat),
{
    assert forall|r: int|
        0 <= r < k && min_node is Some && min_node != Some(r as u32) && #[trigger] present[r]
            implies !no_edge_into(rank_endpoints(out), r as nat) by {
        if no_edge_into(rank_endpoints(s), r as nat) {
            let e = RankEdge { from: min_node->0, to: r as u32, min_rank_len: 0 };
            assert(out.contains(e));
            let x = choose|x: int| 0 <= x < out.len() && out[x] == e;
            assert(rank_endpoints(out)[x].1 == r as nat);
        } else {
            let x = choose|x: int| 0 <= x < s.len() && #[trigger] rank_endpoints(s)[x].1 == r as nat;
            assert(out.take(s.len() as int)[x] == out[x]);
            assert(rank_endpoints(out)[x].1 == r as nat);
        }
    }
    assert forall|r: int|
        0 <= r < k && max_node is Some && max_node != Some(r as u32) && #[trigger] present[r]
            implies !no_edge_out_of(rank_endpoints(out), r as nat) by {
        if no_edge_out_of(rank_endpoints(s), r as nat) {
            let e = RankEdge { from: r as u32, to: max_node->0, min_rank_len: 0 };
            assert(out.contains(e));
            let x = choose|x: int| 0 <= x < out.len() && out[x] == e;
            assert(rank_endpoints(out)[x].0 == r as nat);
        } else {
            let x = choose|x: int| 0 <= x < s.len() && #[trigger] rank_endpoints(s)[x].0 == r as nat;
            assert(out.take(s.len() as int)[x] == out[x]);
            assert(rank_endpoints(out)[x].0 == r as nat);
        }
    }
}

/// The least of `order` over the nodes below `k`, or 0 when there are none.
pub open spec fn least_order(order: spec_fn(nat) -> int, k: nat) -> int
    decreases k,
{
    if k == 0 {
        0
    } else {
        let p = least_order(order, (k - 1) as nat);
        if k == 1 || order((k - 1) as nat) < p {
            order((k - 1) as nat)
        } else {
            p
        }
    }
}

/// The greatest of `order` over the nodes below `k`, or 0 when there are none.
pub open spec fn greatest_order(order: spec_fn(nat) -> int, k: nat) -> int
    decreases k,
{
    if k == 0 {
        0
    } else {
        let p = greatest_order(order, (k - 1) as nat);
        if k == 1 || order((k - 1) as nat) > p {
            order((k - 1) as nat)
        } else {
            p
        }
    }
}

/// The least and greatest values of `order` bound it over the nodes below `k`.
pub proof fn lemma_order_bounds(order: spec_fn(nat) -> int, k: nat)
    ensures
        forall|x: nat| x < k ==> least_order(order, k) <= #[trigger] order(x) <= greatest_order(order, k),
    decreases k,
{
    if k > 0 {
        lemma_order_bounds(order, (k - 1) as nat);
    }
}

/// Adding edges out of a node without incoming edges and into a node without outgoing edges
/// keeps a graph acyclic.
pub proof fn lemma_sources_and_sinks_keep_acyclic(
    k: nat,
    present: Seq<bool>,
    min_node: Option<u32>,
    max_node: Option<u32>,
    s: Seq<RankEdge>,
    out: Seq<RankEdge>,
)
    requires
        adds_sources_and_sinks(k, present, min_node, max_node, s, out),
        rank_acyclic(s),
        forall|e: int| 0 <= e < s.len() ==> #[trigger] s[e].from < k && s[e].to < k,
        min_node matches Some(m) ==> no_edge_into(rank_endpoints(s), m as nat),
        max_node matches Some(m) ==> no_edge_out_of(rank_endpoints(s), m as nat),
        min_node is Some && max_node is Some ==> min_node != max_node,
    ensures
        rank_acyclic(out),
{
    let o = choose|o: spec_fn(nat) -> int| #[trigger] goes_forward(s, o);
    lemma_order_bounds(o, k);
    let lo = least_order(o, k) - 1;
    let hi = greatest_order(o, k) + 1;
    let o2 = |x: nat|
        if min_node is Some && x == min_node->0 as nat {
            lo
        } else if max_node is Some && x == max_node->0 as nat {
            hi
        } else {
            o(x)
        };
    assert forall|i: int| 0 <= i < out.len() implies o2(#[trigger] out[i].from as nat) < o2(out[i].to as nat) by {
        let a = out[i].from as nat;
        let b = out[i].to as nat;
        assert(o2(a) == if min_node is Some && a == min_node->0 as nat { lo } else if max_node is Some && a == max_node->0 as nat { hi } else { o(a) });
        assert(o2(b) == if min_node is Some && b == min_node->0 as nat { lo } else if max_node is Some && b == max_node->0 as nat { hi } else { o(b) });
        if i < s.len() {
            assert(out.take(s.len() as int)[i] == out[i]);
            assert(out[i] == s[i]);
            assert(s[i].from < k && s[i].to < k);
            if min_node is Some {
                assert(rank_endpoints(s)[i].1 != min_node->0 as nat);
            }
            if max_node is Some {
                assert(rank_endpoints(s)[i].0 != max_node->0 as nat);
            }
            assert(rank_endpoints(s)[i] == (a, b));
            assert(o(a) < o(b));
            assert(o(a) <= greatest_order(o, k) && least_order(o, k) <= o(b));
        } else {
            assert(out[i].from < k && out[i].to < k);
            assert(o(a) <= greatest_order(o, k) && least_order(o, k) <= o(b));
            assert(least_order(o, k) <= o(a) && o(b) <= greatest_order(o, k));
        }
    }
    assert(goes_forward(out, o2));
}

/// Add an edge of minimum rank length 0 from the min node to each other present node without
/// incoming edges, and one to the max node from each other present node without outgoing edges.
fn add_sources_and_sinks(
    k: u32,
    present: &Vec<bool>,
    min_node: Option<u32>,
    max_node: Option<u32>,
    s: &Vec<RankEdge>,
) -> (out: Vec<RankEdge>)
    requires
        present@.len() == k,
        forall|e: int| 0 <= e < s@.len() ==> #[trigger] s@[e].from < k && s@[e].to < k,
        min_node matches Some(m) ==> m < k,
        max_node matches Some(m) ==> m < k,
    ensures
        adds_sources_and_sinks(k as nat, present@, min_node, max_node, s@, out@),
{
    let mut has_in: Vec<bool> = Vec::new();
    let mut has_out: Vec<bool> = Vec::new();
    while has_in.len() < k as usize
        invariant
            has_in@.len() == has_out@.len(),
            has_in@.len() <= k,
            forall|v: int| 0 <= v < has_in@.len() ==> !#[trigger] has_in@[v],
            forall|v: int| 0 <= v < has_out@.len() ==> !#[trigger] has_out@[v],
        decreases k - has_in@.len(),
    {
        has_in.push(false);
        has_out.push(false);
    }
    let mut out: Vec<RankEdge> = Vec::new();
    let mut i: usize = 0;
    while i < s.len()
        invariant
            has_in@.len() == k,
            has_out@.len() == k,
            0 <= i <= s@.len(),
            out@ == s@.take(i as int),
            forall|e: int| 0 <= e < s@.len() ==> #[trigger] s@[e].from < k && s@[e].to < k,
            forall|v: int| 0 <= v < k ==> (#[trigger] has_in@[v] <==> exists|e: int| 0 <= e < i && #[trigger] s@[e].to == v),
            forall|v: int| 0 <= v < k ==> (#[trigger] has_out@[v] <==> exists|e: int| 0 <= e < i && #[trigger] s@[e].from == v),
        decreases s@.len() - i,
    {
        let e = s[i];
        assert(s@[i as int].from < k && s@[i as int].to < k);
        has_in.set(e.to as usize, true);
        has_out.set(e.from as usize, true);
        out.push(e);
        proof {
            assert(out@ =~= s@.take(i + 1));
            assert forall|v: int| 0 <= v < k implies (#[trigger] has_in@[v] <==> exists|e2: int| 0 <= e2 < i + 1 && #[trigger] s@[e2].to == v) by {
                if v == e.to {
                    assert(s@[i as int].to == v);
                }
            }
            assert forall|v: int| 0 <= v < k implies (#[trigger] has_out@[v] <==> exists|e2: int| 0 <= e2 < i + 1 && #[trigger] s@[e2].from == v) by {
                if v == e.from {
                    assert(s@[i as int].from == v);
                }
            }
        }
        i = i + 1;
    }
    proof {
        assert(out@ =~= s@.take(s@.len() as int));
        assert forall|v: int| 0 <= v < k implies (#[trigger] has_in@[v] <==> !no_edge_into(rank_endpoints(s@), v as nat)) by {
            if has_in@[v] {
                let e = choose|e: int| 0 <= e < s@.len() && #[trigger] s@[e].to == v;
                assert(rank_endpoints(s@)[e].1 == v);
            }
            if !no_edge_into(rank_endpoints(s@), v as nat) {
                let e = choose|e: int| 0 <= e < s@.len() && rank_endpoints(s@)[e].1 == v as nat;
                assert(s@[e].to == v);
            }
        }
        assert forall|v: int| 0 <= v < k implies (#[trigger] has_out@[v] <==> !no_edge_out_of(rank_endpoints(s@), v as nat)) by {
            if has_out@[v] {
                let e = choose|e: int| 0 <= e < s@.len() && #[trigger] s@[e].from == v;
                assert(rank_endpoints(s@)[e].0 == v);
            }
            if !no_edge_out_of(rank_endpoints(s@), v as nat) {
                let e = choose|e: int| 0 <= e < s@.len() && rank_endpoints(s@)[e].0 == v as nat;
                assert(s@[e].from == v);
            }
        }
    }
    let ghost base = out@;
    if let Some(m) = min_node {
        let mut r: u32 = 0;
        while r < k
            invariant
                min_node == Some(m),
                m < k,
                present@.len() == k,
                has_in@.len() == k,
                0 <= r <= k,
                forall|v: int| 0 <= v < k ==> (#[trigger] has_in@[v] <==> !no_edge_into(rank_endpoints(s@), v as nat)),
                out@.len() >= s@.len(),
                out@.take(s@.len() as int) == s@,
                base == s@,
                forall|e: int| 0 <= e < s@.len() ==> #[trigger] s@[e].from < k && s@[e].to < k,
                forall|x: int|
                    s@.len() <= x < out@.len() ==> (#[trigger] out@[x]).min_rank_len == 0 && out@[x].from < k
                        && out@[x].to < k && min_node == Some(out@[x].from) && out@[x].to != out@[x].from
                        && present@[out@[x].to as int] && no_edge_into(rank_endpoints(s@), out@[x].to as nat),
                forall|v: int|
                    0 <= v < r && m != v && present@[v] && no_edge_into(rank_endpoints(s@), v as nat)
                        ==> #[trigger] out@.contains(RankEdge { from: m, to: v as u32, min_rank_len: 0 }),
            decreases k - r,
        {
            if r != m && present[r as usize] && !has_in[r as usize] {
                let ghost before = out@;
                out.push(RankEdge { from: m, to: r, min_rank_len: 0 });
                proof {
                    assert(out@.take(s@.len() as int) =~= before.take(s@.len() as int));
                    assert forall|v: int|
                        0 <= v < r + 1 && m != v && present@[v] && no_edge_into(rank_endpoints(s@), v as nat)
                            implies #[trigger] out@.contains(RankEdge { from: m, to: v as u32, min_rank_len: 0 }) by {
                        if v < r {
                            assert(before.contains(RankEdge { from: m, to: v as u32, min_rank_len: 0 }));
                            let w = choose|w: int| 0 <= w < before.len() && before[w] == RankEdge { from: m, to: v as u32, min_rank_len: 0 };
                            assert(out@[w] == before[w]);
                        } else {
                            assert(out@[out@.len() - 1] == RankEdge { from: m, to: v as u32, min_rank_len: 0 });
                        }
                    }
                }
            }
            r = r + 1;
        }
    }
    let ghost mid = out@;
    if let Some(mx) = max_node {
        let mut r: u32 = 0;
        while r < k
            invariant
                max_node == Some(mx),
                mx < k,
                present@.len() == k,
                has_out@.len() == k,
                0 <= r <= k,
                forall|v: int| 0 <= v < k ==> (#[trigger] has_out@[v] <==> !no_edge_out_of(rank_endpoints(s@), v as nat)),
                out@.len() >= mid.len(),
                out@.take(mid.len() as int) == mid,
                mid.len() >= s@.len(),
                mid.take(s@.len() as int) == s@,
                forall|x: int|
                    mid.len() <= x < out@.len() ==> (#[trigger] out@[x]).min_rank_len == 0 && out@[x].from < k
                        && out@[x].to < k && max_node == Some(out@[x].to) && out@[x].to != out@[x].from
                        && present@[out@[x].from as int] && no_edge_out_of(rank_endpoints(s@), out@[x].from as nat),
                forall|v: int|
                    0 <= v < r && mx != v && present@[v] && no_edge_out_of(rank_endpoints(s@), v as nat)
                        ==> #[trigger] out@.contains(RankEdge { from: v as u32, to: mx, min_rank_len: 0 }),
            decreases k - r,
        {
            if r != mx && present[r as usize] && !has_out[r as usize] {
                let ghost before = out@;
                out.push(RankEdge { from: r, to: mx, min_rank_len: 0 });
                proof {
                    assert(out@.take(mid.len() as int) =~= before.take(mid.len() as int));
                    assert forall|v: int|
                        0 <= v < r + 1 && mx != v && present@[v] && no_edge_out_of(rank_endpoints(s@), v as nat)
                            implies #[trigger] out@.contains(RankEdge { from: v as u32, to: mx, min_rank_len: 0 }) by {
                        if v < r {
                            assert(before.contains(RankEdge { from: v as u32, to: mx, min_rank_len: 0 }));
                            let w = choose|w: int| 0 <= w < before.len() && before[w] == RankEdge { from: v as u32, to: mx, min_rank_len: 0 };
                            assert(out@[w] == before[w]);
                        } else {
                            assert(out@[out@.len() - 1] == RankEdge { from: v as u32, to: mx, min_rank_len: 0 });
                        }
                    }
                }
            }
            r = r + 1;
        }
    }
    proof {
        assert(out@.take(s@.len() as int) =~= mid.take(s@.len() as int)) by {
            assert(out@.take(mid.len() as int) == mid);
        }
        assert forall|r: int|
            0 <= r < k && min_node is Some && min_node != Some(r as u32) && present@[r] && no_edge_into(
                rank_endpoints(s@),
                r as nat,
            ) implies #[trigger] out@.contains(RankEdge { from: min_node->0, to: r as u32, min_rank_len: 0 }) by {
            assert(mid.contains(RankEdge { from: min_node->0, to: r as u32, min_rank_len: 0 }));
            let w = choose|w: int| 0 <= w < mid.len() && mid[w] == RankEdge { from: min_node->0, to: r as u32, min_rank_len: 0 };
            assert(out@.take(mid.len() as int)[w] == mid[w]);
            assert(out@[w] == mid[w]);
        }
        assert forall|i: int|
            s@.len() <= i < out@.len() implies (#[trigger] out@[i]).min_rank_len == 0 && out@[i].from < k
                && out@[i].to < k && ((min_node == Some(out@[i].from) && out@[i].to != out@[i].from
                && present@[out@[i].to as int] && no_edge_into(rank_endpoints(s@), out@[i].to as nat)) || (
            max_node == Some(out@[i].to) && out@[i].to != out@[i].from && present@[out@[i].from as int]
                && no_edge_out_of(rank_endpoints(s@), out@[i].from as nat))) by {
            if i < mid.len() {
                assert(out@.take(mid.len() as int)[i] == mid[i]);
            }
        }
        assert(out@.len() >= s@.len());
        assert(out@.take(s@.len() as int) == s@);
        assert forall|r: int|
            0 <= r < k && max_node is Some && max_node != Some(r as u32) && present@[r] && no_edge_out_of(
                rank_endpoints(s@),
                r as nat,
            ) implies #[trigger] out@.contains(RankEdge { from: r as u32, to: max_node->0, min_rank_len: 0 }) by {
        }
    }
    out
}

impl<NodeData> Gansner<NodeData> {
    /// Remove the condensed nodes that are leaves outside every set of hinted nodes, with
    /// their edges.
    fn drop_leaves(
        &self,
        node_of: &Vec<u32>,
        k: u32,
        redges: &Vec<RankEdge>,
        edge_of: &Vec<Option<usize>>,
    ) -> (r: (Vec<bool>, Vec<RankEdge>, Vec<Option<usize>>))
        requires
            self.wf(),
            node_of@.len() == self.node_count_spec(),
            forall|e: int| 0 <= e < redges@.len() ==> #[trigger] redges@[e].from < k && redges@[e].to < k,
        ensures
            r.0@.len() == k,
            forall|v: int| 0 <= v < k ==> (#[trigger] r.0@[v] <==> !is_free_leaf(self.hints(), node_of@, redges@, v as nat)),
            forall|v: int|
                0 <= v < node_of@.len() && #[trigger] hint_of(self.hints(), v as nat) is Some && node_of@[v] < k
                    ==> r.0@[node_of@[v] as int],
            exists|new_index: Seq<Option<usize>>| #[trigger] drops_nodes(redges@, edge_of@, r.0@, r.1@, new_index, r.2@),
            r.1@.len() <= redges@.len(),
    {
        proof {
            self.lemma_unfold();
        }
        let ghost h = self.hints();
        let mut deg: Vec<usize> = Vec::new();
        let mut set_node: Vec<bool> = Vec::new();
        while deg.len() < k as usize
            invariant
                deg@.len() == set_node@.len(),
                deg@.len() <= k,
                forall|v: int| 0 <= v < deg@.len() ==> #[trigger] deg@[v] == 0,
                forall|v: int| 0 <= v < deg@.len() ==> !#[trigger] set_node@[v],
            decreases k - deg@.len(),
        {
            deg.push(0);
            set_node.push(false);
        }
        let mut i: usize = 0;
        while i < redges.len()
            invariant
                deg@.len() == k,
                set_node@.len() == k,
                forall|v: int| 0 <= v < k ==> !#[trigger] set_node@[v],
                0 <= i <= redges@.len(),
                forall|e: int| 0 <= e < redges@.len() ==> #[trigger] redges@[e].from < k && redges@[e].to < k,
                forall|v: int| 0 <= v < k ==> #[trigger] deg@[v] == touch_count(redges@.take(i as int), v as nat),
                forall|v: int| 0 <= v < k ==> #[trigger] deg@[v] <= i,
            decreases redges@.len() - i,
        {
            let e = redges[i];
            proof {
                assert(redges@.take(i + 1).drop_last() =~= redges@.take(i as int));
                assert(redges@.take(i + 1).last() == e);
            }
            if e.from == e.to {
                let d = deg[e.from as usize];
                deg.set(e.from as usize, d + 1);
            } else {
                let d = deg[e.from as usize];
                deg.set(e.from as usize, d + 1);
                let d = deg[e.to as usize];
                deg.set(e.to as usize, d + 1);
            }
            i = i + 1;
        }
        proof {
            assert(redges@.take(redges@.len() as int) =~= redges@);
        }
        let n = self.node_count();
        let mut u: usize = 0;
        while u < n
            invariant
                self.wf(),
                h == self.hints(),
                n == node_of@.len(),
                n <= u32::MAX,
                set_node@.len() == k,
                0 <= u <= n,
                forall|r: int|
                    0 <= r < k ==> (#[trigger] set_node@[r] <==> exists|v: int|
                        0 <= v < u && hint_of(h, v as nat) is Some && node_of@[v] == r),
            decreases n - u,
        {
            let hint = self.node_rank(Node::from_index(u as u32));
            assert(hint == hint_of(h, (u as int) as nat));
            let x = node_of[u];
            if hint.is_some() && (x as usize) < set_node.len() {
                set_node.set(x as usize, true);
            }
            proof {
                assert forall|r: int|
                    0 <= r < k implies (#[trigger] set_node@[r] <==> exists|v: int|
                        0 <= v < u + 1 && hint_of(h, v as nat) is Some && node_of@[v] == r) by {
                    let w: int = u as int;
                    if hint.is_some() && x == r {
                        assert(0 <= w < u + 1 && hint_of(h, w as nat) is Some && node_of@[w] == r);
                    }
                }
            }
            u = u + 1;
        }
        let mut present: Vec<bool> = Vec::new();
        let mut r: usize = 0;
        while r < k as usize
            invariant
                deg@.len() == k,
                set_node@.len() == k,
                0 <= r <= k,
                present@.len() == r,
                forall|v: int| 0 <= v < r ==> #[trigger] present@[v] == !(deg@[v] == 1 && !set_node@[v]),
            decreases k - r,
        {
            present.push(!(deg[r] == 1 && !set_node[r]));
            r = r + 1;
        }
        proof {
            assert forall|v: int| 0 <= v < k implies (#[trigger] present@[v] <==> !is_free_leaf(h, node_of@, redges@, v as nat)) by {
                assert(deg@[v] == touch_count(redges@, v as nat));
                if set_node@[v] {
                    let w = choose|w: int| 0 <= w < u && hint_of(h, w as nat) is Some && node_of@[w] == v;
                    assert(is_set_node(h, node_of@, v as nat));
                }
                if is_set_node(h, node_of@, v as nat) {
                    let w = choose|w: int| 0 <= w < node_of@.len() && hint_of(h, w as nat) is Some && node_of@[w] == v;
                    assert(set_node@[v]);
                }
            }
        }
        let mut out: Vec<RankEdge> = Vec::new();
        let mut new_index: Vec<Option<usize>> = Vec::new();
        let mut i: usize = 0;
        while i < redges.len()
            invariant
                present@.len() == k,
                0 <= i <= redges@.len(),
                new_index@.len() == i,
                out@.len() <= i,
                forall|e: int| 0 <= e < redges@.len() ==> #[trigger] redges@[e].from < k && redges@[e].to < k,
                forall|e: int|
                    0 <= e < i ==> (#[trigger] new_index@[e] is Some <==> present@[redges@[e].from as int]
                        && present@[redges@[e].to as int]),
                forall|e: int|
                    0 <= e < i && #[trigger] new_index@[e] is Some ==> new_index@[e]->0 < out@.len()
                        && out@[new_index@[e]->0 as int] == redges@[e],
                forall|e1: int, e2: int|
                    0 <= e1 < e2 < i && #[trigger] new_index@[e1] is Some && #[trigger] new_index@[e2] is Some
                        ==> new_index@[e1]->0 < new_index@[e2]->0,
                forall|e: int| 0 <= e < i && #[trigger] new_index@[e] is Some ==> new_index@[e]->0 < out@.len(),
                forall|q: int| 0 <= q < out@.len() ==> #[trigger] kept_from(new_index@, q),
            decreases redges@.len() - i,
        {
            let e = redges[i];
            let ghost ni = new_index@;
            if present[e.from as usize] && present[e.to as usize] {
                new_index.push(Some(out.len()));
                out.push(e);
            } else {
                new_index.push(None);
            }
            proof {
                assert forall|q: int| 0 <= q < out@.len() implies #[trigger] kept_from(new_index@, q) by {
                    if q < out@.len() - 1 || !(present@[e.from as int] && present@[e.to as int]) {
                        assert(kept_from(ni, q));
                        let e2 = choose|e2: int| 0 <= e2 < ni.len() && ni[e2] == Some(q as usize);
                        assert(new_index@[e2] == Some(q as usize));
                    } else {
                        assert(new_index@[i as int] == Some(q as usize));
                    }
                }
            }
            i = i + 1;
        }
        let mut edge_of2: Vec<Option<usize>> = Vec::new();
        let mut j: usize = 0;
        while j < edge_of.len()
            invariant
                0 <= j <= edge_of@.len(),
                edge_of2@.len() == j,
                new_index@.len() == redges@.len(),
                forall|j2: int|
                    0 <= j2 < j ==> #[trigger] edge_of2@[j2] == match edge_of@[j2] {
                        Some(e) => if e < new_index@.len() { new_index@[e as int] } else { None },
                        None => None,
                    },
            decreases edge_of@.len() - j,
        {
            let x = match edge_of[j] {
                Some(e) => if e < new_index.len() { new_index[e] } else { None },
                None => None,
            };
            edge_of2.push(x);
            j = j + 1;
        }
        let res = (present, out, edge_of2);
        proof {
            assert(drops_nodes(redges@, edge_of@, res.0@, res.1@, new_index@, res.2@));
            assert forall|v: int|
                0 <= v < node_of@.len() && #[trigger] hint_of(h, v as nat) is Some && node_of@[v] < k
                    implies res.0@[node_of@[v] as int] by {
                lemma_hinted_nodes_stay(h, node_of@, redges@, v);
            }
        }
        res
    }

    /// The condensed edges: loops left out, edges out of the min node and into the max node,
    /// parallel edges merged into one that asks for the largest minimum rank length, in the
    /// order of the first user edge that each stands for.
    fn merge_edges(&self, node_of: &Vec<u32>, k: u32, min_node: Option<u32>, max_node: Option<u32>) -> (r: (
        Vec<RankEdge>,
        Vec<Option<usize>>,
    ))
        requires
            self.wf(),
            condenses(self.hints(), self.node_count_spec(), node_of@, k as nat, min_node, max_node),
        ensures
            merges(self.edges(), node_of@, k as nat, min_node, max_node, r.0@, r.1@),
            r.0@.len() <= self.edges().len(),
            forall|j: int|
                0 <= j < self.edges().len() && #[trigger] r.1@[j] is Some && min_node != Some(
                    node_of@[self.edges()[j].1 as int],
                ) && max_node != Some(node_of@[self.edges()[j].0 as int]) ==> r.0@[r.1@[j]->0 as int].from
                    == node_of@[self.edges()[j].0 as int] && r.0@[r.1@[j]->0 as int].to == node_of@[self.edges()[j].1 as int],
    {
        proof {
            self.lemma_unfold();
        }
        let ghost s = self.edges();
        let ghost n = self.node_count_spec();
        let m = crate::graph::graph_edge_count_of(&self.graph);
        let mut redges: Vec<RankEdge> = Vec::new();
        let mut edge_of: Vec<Option<usize>> = Vec::new();
        let mut j: usize = 0;
        while j < m
            invariant
                self.wf(),
                s == self.edges(),
                s == graph_edges(self.graph),
                n == self.node_count_spec(),
                n == graph_node_count(self.graph),
                m == s.len(),
                crate::edges_within(s, n),
                n <= u32::MAX,
                condenses(self.hints(), n, node_of@, k as nat, min_node, max_node),
                0 <= j <= m,
                redges@.len() <= j,
                merges(s.take(j as int), node_of@, k as nat, min_node, max_node, redges@, edge_of@),
            decreases m - j,
        {
            proof {
                self.lemma_unfold();
            }
            let ghost sj = s.take(j as int);
            let ghost sj1 = s.take(j + 1);
            assert(s[j as int].0 < n && s[j as int].1 < n);
            let (u, v) = crate::graph::graph_edge_endpoints(&self.graph, j).unwrap();
            let w = crate::graph::graph_edge_weight(&self.graph, j).unwrap();
            let a = node_of[u as usize];
            let b = node_of[v as usize];
            proof {
                assert forall|i: int| 0 <= i < j implies sj1[i] == sj[i] && #[trigger] sj1[i] == s[i] by {}
                assert(sj1[j as int] == s[j as int]);
            }
            let ghost eo = edge_of@;
            let ghost re = redges@;
            if a == b {
                edge_of.push(None);
            } else {
                let (f, t) = if min_node == Some(b) || max_node == Some(a) {
                    (b, a)
                } else {
                    (a, b)
                };
                let mut e: usize = 0;
                while e < redges.len() && (redges[e].from != f || redges[e].to != t)
                    invariant
                        0 <= e <= redges@.len(),
                        forall|e2: int| 0 <= e2 < e ==> (#[trigger] redges@[e2].from, redges@[e2].to) != (f, t),
                    decreases redges@.len() - e,
                {
                    e = e + 1;
                }
                if e < redges.len() {
                    edge_of.push(Some(e));
                    if w.min_rank_len > redges[e].min_rank_len {
                        redges.set(e, RankEdge { from: f, to: t, min_rank_len: w.min_rank_len });
                    }
                } else {
                    edge_of.push(Some(redges.len()));
                    redges.push(RankEdge { from: f, to: t, min_rank_len: w.min_rank_len });
                }
            }
            proof {
                assert(edge_of@.drop_last() =~= eo);
                assert(edge_of@[j as int] == if a == b { None } else { Some(edge_of@[j as int]->0) });
                assert forall|j2: int| 0 <= j2 < sj1.len() implies (#[trigger] edge_of@[j2] is None
                    <==> condensed_loop(sj1, node_of@, j2)) by {
                    if j2 < j {
                        assert(edge_of@[j2] == eo[j2]);
                    }
                }
                assert forall|j2: int|
                    0 <= j2 < sj1.len() && #[trigger] edge_of@[j2] is Some implies {
                        let e = edge_of@[j2]->0 as int;
                        &&& e < redges@.len()
                        &&& (redges@[e].from, redges@[e].to) == condensed_pair(sj1, node_of@, min_node, max_node, j2)
                        &&& sj1[j2].2.min_rank_len <= redges@[e].min_rank_len
                    } by {
                    if j2 < j {
                        assert(edge_of@[j2] == eo[j2]);
                        let e = eo[j2]->0 as int;
                        assert(e < re.len());
                        assert(redges@[e].from == re[e].from && redges@[e].to == re[e].to);
                        assert(re[e].min_rank_len <= redges@[e].min_rank_len);
                    }
                }
                assert forall|e: int| 0 <= e < redges@.len() implies #[trigger] has_member_of_len(
                    sj1, edge_of@, e, redges@[e].min_rank_len) by {
                    if e < re.len() && redges@[e] == re[e] {
                        assert(has_member_of_len(sj, eo, e, re[e].min_rank_len));
                        let j2 = choose|j2: int| 0 <= j2 < sj.len() && eo[j2] == Some(e as usize) && sj[j2].2.min_rank_len == re[e].min_rank_len;
                        assert(edge_of@[j2] == Some(e as usize));
                        assert(sj1[j2] == sj[j2]);
                    } else {
                        assert(edge_of@[j as int] == Some(e as usize));
                        assert(sj1[j as int].2 == w);
                    }
                }
                assert forall|e1: int, e2: int|
                    0 <= e1 < redges@.len() && 0 <= e2 < redges@.len() && e1 != e2 implies (#[trigger] redges@[e1].from,
                    redges@[e1].to) != (#[trigger] redges@[e2].from, redges@[e2].to) by {
                    if e1 < re.len() && e2 < re.len() {
                        assert((re[e1].from, re[e1].to) != (re[e2].from, re[e2].to));
                    }
                }
                assert(edge_of@.len() == sj1.len());
                assert forall|e: int|
                    0 <= e < redges@.len() implies #[trigger] redges@[e].from != redges@[e].to && redges@[e].from < k
                        && redges@[e].to < k by {
                    if e < re.len() {
                        assert(re[e].from != re[e].to);
                    }
                }
                let x = edge_of@[j as int];
                lemma_merge_step_keeps_order(sj, node_of@, k as nat, min_node, max_node, re, eo, x);
                assert(edge_of@ =~= eo.push(x));
                assert(merges(sj1, node_of@, k as nat, min_node, max_node, redges@, edge_of@));
            }
            j = j + 1;
        }
        proof {
            assert(s.take(m as int) =~= s);
            lemma_merges_keeps_direction(s, node_of@, k as nat, min_node, max_node, redges@, edge_of@);
        }
        (redges, edge_of)
    }

    /// Run the rank preparation; the graph is left as it was.
    pub(crate) fn layout_impl(&mut self, debug: bool)
        requires
            old(self).wf(),
        ensures
            final(self).wf(),
            final(self).edges() == old(self).edges(),
            old(self).same_nodes_and_hints(final(self)),
            final(self).is_fresh() == old(self).is_fresh(),
    {
        // 1) Rank nodes: build the graph that ranks are assigned on.
        let adj = self.prepare_rank_assignment();
        self.undo_modify_edges(adj);
    }

    /// Put back what preparation changed in this graph. Preparation builds the graph that
    /// ranks are assigned on apart from this one and leaves this one as it was, so there is
    /// nothing to put back; the call stays so that the layout keeps its prepare and restore
    /// steps side by side.
    pub fn undo_modify_edges(&mut self, adj: RankAssignmentAdjustment)
        requires
            old(self).wf(),
        ensures
            final(self).wf(),
            final(self).edges() == old(self).edges(),
            old(self).same_nodes_and_hints(final(self)),
            final(self).is_fresh() == old(self).is_fresh(),
    {
    }

    /// Prepare for rank assignment the graph that ranks are assigned on, built apart from this
    /// graph, which is left as it was:
    ///  1. the nodes of each user-supplied set (the min and max sets included) are condensed
    ///     into a single node;
    ///  2. edges are pointed out of the min node and into the max node;
    ///  3. loops (edges within one condensed node) are removed;
    ///  4. multiple edges between two nodes in the same direction are merged into one edge,
    ///     which asks for the largest minimum rank length among them; the edges that it stands
    ///     for are recorded (`edge_for_each`), and together their weights weigh the merged
    ///     edge;
    ///  5. leaf nodes (one edge) that stand for no hinted node are removed, with their edge;
    ///  6. the graph is made acyclic by reversing the edges that petgraph's greedy feedback arc
    ///     set heuristic picks;
    ///  7. an edge of minimum rank length 0 is added from the min node to every other node
    ///     without incoming edges, and to the max node from every other node without outgoing
    ///     edges.
    ///
    /// The return value holds that graph, and which of its nodes and edges stand for which
    /// nodes and edges of this graph.
    pub fn prepare_rank_assignment(&self) -> (adj: RankAssignmentAdjustment)
        requires
            self.wf(),
        ensures
            condenses(
                self.hints(),
                self.node_count_spec(),
                adj.node_of(),
                adj.node_count(),
                adj.min_node(),
                adj.max_node(),
            ),
            adj.present().len() == adj.node_count(),
            forall|v: int|
                0 <= v < self.node_count_spec() && #[trigger] hint_of(self.hints(), v as nat) is Some
                    ==> adj.present()[adj.node_of()[v] as int],
            exists|
                merged: Seq<RankEdge>,
                edge_of1: Seq<Option<usize>>,
                kept: Seq<RankEdge>,
                new_index: Seq<Option<usize>>,
                broken: Seq<RankEdge>,
            |
                {
                    &&& #[trigger] merges(
                        self.edges(),
                        adj.node_of(),
                        adj.node_count(),
                        adj.min_node(),
                        adj.max_node(),
                        merged,
                        edge_of1,
                    )
                    &&& forall|j: int|
                        0 <= j < self.edges().len() && #[trigger] edge_of1[j] is Some && adj.min_node() != Some(
                            adj.node_of()[self.edges()[j].1 as int],
                        ) && adj.max_node() != Some(adj.node_of()[self.edges()[j].0 as int]) ==> merged[edge_of1[j]->0 as int].from
                            == adj.node_of()[self.edges()[j].0 as int] && merged[edge_of1[j]->0 as int].to
                            == adj.node_of()[self.edges()[j].1 as int]
                    &&& forall|v: int|
                        0 <= v < adj.node_count() ==> (#[trigger] adj.present()[v] <==> !is_free_leaf(
                            self.hints(),
                            adj.node_of(),
                            merged,
                            v as nat,
                        ))
                    &&& #[trigger] drops_nodes(merged, edge_of1, adj.present(), kept, new_index, adj.edge_of())
                    &&& broken.len() == kept.len()
                    &&& forall|i: int|
                        0 <= i < kept.len() ==> #[trigger] broken[i] == if greedy_feedback_arc_set_of(
                            rank_endpoints(kept),
                        ).contains(i as nat) {
                            flip_rank_edge(kept[i])
                        } else {
                            kept[i]
                        }
                    &&& #[trigger] adds_sources_and_sinks(
                        adj.node_count(),
                        adj.present(),
                        adj.min_node(),
                        adj.max_node(),
                        broken,
                        adj.edges(),
                    )
                },
            rank_acyclic(adj.edges()),
            adj.min_node() matches Some(m) ==> no_edge_into(rank_endpoints(adj.edges()), m as nat),
            adj.max_node() matches Some(m) ==> no_edge_out_of(rank_endpoints(adj.edges()), m as nat),
            forall|r: int|
                0 <= r < adj.node_count() && adj.min_node() is Some && adj.min_node() != Some(r as u32)
                    && #[trigger] adj.present()[r] ==> !no_edge_into(rank_endpoints(adj.edges()), r as nat),
            forall|r: int|
                0 <= r < adj.node_count() && adj.max_node() is Some && adj.max_node() != Some(r as u32)
                    && #[trigger] adj.present()[r] ==> !no_edge_out_of(rank_endpoints(adj.edges()), r as nat),
    {
        let (node_of, k, min_node, max_node) = self.condense();
        let (merged, edge_of1) = self.merge_edges(&node_of, k, min_node, max_node);
        let (present, kept, edge_of) = self.drop_leaves(&node_of, k, &merged, &edge_of1);
        let ghost ni = choose|ni: Seq<Option<usize>>| #[trigger] drops_nodes(merged@, edge_of1@, present@, kept@, ni, edge_of@);
        proof {
            self.lemma_unfold();
            lemma_condensed_ends_differ(self.hints(), self.node_count_spec(), node_of@, k as nat, min_node, max_node);
            lemma_merged_respects_ends(self.edges(), node_of@, k as nat, min_node, max_node, merged@, edge_of1@);
            assert forall|e: int| 0 <= e < kept@.len() implies #[trigger] kept@[e].from != kept@[e].to
                && kept@[e].from < k && kept@[e].to < k by {
                assert(kept_from(ni, e));
                let e0 = choose|e0: int| 0 <= e0 < ni.len() && ni[e0] == Some(e as usize);
                assert(kept@[e] == merged@[e0]);
            }
            if min_node is Some {
                assert forall|x: int| 0 <= x < kept@.len() implies #[trigger] rank_endpoints(kept@)[x].1 != min_node->0 as nat by {
                    assert(kept_from(ni, x));
                    let e0 = choose|e0: int| 0 <= e0 < ni.len() && ni[e0] == Some(x as usize);
                    assert(kept@[x] == merged@[e0]);
                    assert(rank_endpoints(merged@)[e0].1 != min_node->0 as nat);
                }
            }
            if max_node is Some {
                assert forall|x: int| 0 <= x < kept@.len() implies #[trigger] rank_endpoints(kept@)[x].0 != max_node->0 as nat by {
                    assert(kept_from(ni, x));
                    let e0 = choose|e0: int| 0 <= e0 < ni.len() && ni[e0] == Some(x as usize);
                    assert(kept@[x] == merged@[e0]);
                    assert(rank_endpoints(merged@)[e0].0 != max_node->0 as nat);
                }
            }
        }
        let broken = break_cycles(k, &kept);
        proof {
            assert forall|e: int| 0 <= e < broken@.len() implies #[trigger] broken@[e].from < k && broken@[e].to < k by {
                assert(kept@[e].from < k && kept@[e].to < k);
            }
            if min_node is Some {
                assert(min_node->0 < k);
            }
            if max_node is Some {
                assert(max_node->0 < k);
            }
        }
        let edges = add_sources_and_sinks(k, &present, min_node, max_node, &broken);
        proof {
            lemma_sources_and_sinks_keep_acyclic(k as nat, present@, min_node, max_node, broken@, edges@);
            lemma_sources_and_sinks_keep_ends(k as nat, present@, min_node, max_node, broken@, edges@);
            lemma_sources_and_sinks_cover(k as nat, present@, min_node, max_node, broken@, edges@);
        }
        let adj = RankAssignmentAdjustment { node_of, node_count: k, min_node, max_node, present, edges, edge_of };
        proof {
            assert(merges(self.edges(), adj.node_of(), adj.node_count(), adj.min_node(), adj.max_node(), merged@, edge_of1@));
            assert(drops_nodes(merged@, edge_of1@, adj.present(), kept@, ni, adj.edge_of()));
            assert(adds_sources_and_sinks(adj.node_count(), adj.present(), adj.min_node(), adj.max_node(), broken@, adj.edges()));
        }
        adj
    }

    /// Condense each set of nodes that share a rank hint (the nodes of min rank and those of
    /// max rank among them) into one node; every other node stands for itself. Condensed nodes
    /// are numbered in the order of their first node.
    fn condense(&self) -> (r: (Vec<u32>, u32, Option<u32>, Option<u32>))
        requires
            self.wf(),
        ensures
            condenses(self.hints(), self.node_count_spec(), r.0@, r.1 as nat, r.2, r.3),
    {
        proof {
            self.lemma_unfold();
        }
        let ghost h = self.hints();
        let n = self.node_count();
        let mut rank_node: HashMap<RankIdx, u32> = HashMap::new();
        let mut node_of: Vec<u32> = Vec::new();
        let mut k: u32 = 0;
        let mut u: usize = 0;
        while u < n
            invariant
                self.wf(),
                h == self.hints(),
                n == self.node_count_spec(),
                n <= u32::MAX,
                0 <= u <= n,
                node_of@.len() == u,
                k <= u,
                forall|v: int| 0 <= v < u ==> #[trigger] node_of@[v] < k,
                forall|v: int, w: int|
                    0 <= v < u && 0 <= w < u ==> (#[trigger] node_of@[v] == #[trigger] node_of@[w]
                        <==> same_set(h, v as nat, w as nat)),
                forall|r: int| 0 <= r < k ==> #[trigger] stands_for_some(node_of@, r),
                forall|v: int, w: int|
                    #![trigger node_of@[v], node_of@[w]]
                    0 <= v < u && 0 <= w < u && node_of@[w] < node_of@[v] ==> occurs_before(node_of@, v, node_of@[w]),
                forall|r: RankIdx|
                    #[trigger] rank_node@.contains_key(r) <==> exists|v: int|
                        0 <= v < u && #[trigger] hint_of(h, v as nat) == Some(r),
                forall|v: int|
                    0 <= v < u && #[trigger] hint_of(h, v as nat) is Some ==> rank_node@.contains_key(
                        hint_of(h, v as nat)->0,
                    ) && rank_node@[hint_of(h, v as nat)->0] == node_of@[v],
            decreases n - u,
        {
            let hint = self.node_rank(Node::from_index(u as u32));
            assert(hint == hint_of(h, u as nat));
            let ghost before = node_of@;
            let ghost map_before = rank_node@;
            match hint {
                Some(r) => {
                    match rank_node.get(&r) {
                        Some(x) => {
                            let x = *x;
                            let ghost v0 = choose|v: int| 0 <= v < u && #[trigger] hint_of(h, v as nat) == Some(r);
                            proof {
                                assert(node_of@[v0] == x);
                                assert(occurs_before(node_of@, node_of@.len() as int, x));
                                lemma_push_keeps_first_order(node_of@, x, k);
                            }
                            node_of.push(x);
                            proof {
                                assert forall|v: int, w: int|
                                    0 <= v < u + 1 && 0 <= w < u + 1 implies (#[trigger] node_of@[v]
                                    == #[trigger] node_of@[w] <==> same_set(h, v as nat, w as nat)) by {
                                    if v == u && w < u {
                                        assert(node_of@[w] == before[w]);
                                        assert(before[v0] == x);
                                        assert(before[w] == before[v0] <==> same_set(h, w as nat, v0 as nat));
                                    }
                                    if w == u && v < u {
                                        assert(before[v0] == x);
                                        assert(before[v] == before[v0] <==> same_set(h, v as nat, v0 as nat));
                                    }
                                }
                                assert forall|r2: int| 0 <= r2 < k implies #[trigger] stands_for_some(node_of@, r2) by {
                                    assert(stands_for_some(before, r2));
                                    let v = choose|v: int| 0 <= v < before.len() && before[v] == r2;
                                    assert(node_of@[v] == r2);
                                }
                                assert forall|r2: RankIdx| #[trigger] rank_node@.contains_key(r2) <==> exists|v: int|
                                    0 <= v < u + 1 && #[trigger] hint_of(h, v as nat) == Some(r2) by {
                                    if r2 == r {
                                        assert(hint_of(h, (u as int) as nat) == Some(r2));
                                    }
                                    if exists|v: int| 0 <= v < u + 1 && #[trigger] hint_of(h, v as nat) == Some(r2) {
                                        let v = choose|v: int| 0 <= v < u + 1 && #[trigger] hint_of(h, v as nat) == Some(r2);
                                        if v < u {
                                        } else {
                                            assert(r2 == r);
                                        }
                                    }
                                }
                            }
                        },
                        None => {
                            rank_node.insert(r, k);
                            proof {
                                lemma_push_keeps_first_order(node_of@, k, k);
                            }
                            proof {
                        lemma_push_keeps_first_order(node_of@, k, k);
                    }
                    node_of.push(k);
                            proof {
                                assert forall|v: int, w: int|
                                    0 <= v < u + 1 && 0 <= w < u + 1 implies (#[trigger] node_of@[v]
                                    == #[trigger] node_of@[w] <==> same_set(h, v as nat, w as nat)) by {
                                    if v == u && w < u {
                                        assert(node_of@[w] == before[w]);
                                        assert(hint_of(h, w as nat) != Some(r));
                                    }
                                    if w == u && v < u {
                                        assert(hint_of(h, v as nat) != Some(r));
                                    }
                                }
                                assert forall|r2: int| 0 <= r2 < k + 1 implies #[trigger] stands_for_some(node_of@, r2) by {
                                    if r2 < k {
                                        assert(stands_for_some(before, r2));
                                        let v = choose|v: int| 0 <= v < before.len() && before[v] == r2;
                                        assert(node_of@[v] == r2);
                                    } else {
                                        assert(node_of@[u as int] == r2);
                                    }
                                }
                                assert forall|r2: RankIdx| #[trigger] rank_node@.contains_key(r2) <==> exists|v: int|
                                    0 <= v < u + 1 && #[trigger] hint_of(h, v as nat) == Some(r2) by {
                                    assert(rank_node@ == map_before.insert(r, k));
                                    assert(map_before.contains_key(r2) <==> exists|v: int|
                                        0 <= v < u && #[trigger] hint_of(h, v as nat) == Some(r2));
                                    if r2 == r {
                                        let w: int = u as int;
                                        assert(hint == hint_of(h, w as nat));
                                        assert(0 <= w < u + 1 && hint_of(h, w as nat) == Some(r2));
                                        assert(rank_node@.contains_key(r2));
                                        assert(exists|v: int| 0 <= v < u + 1 && #[trigger] hint_of(h, v as nat) == Some(r2));
                                    } else if map_before.contains_key(r2) {
                                        let v = choose|v: int| 0 <= v < u && #[trigger] hint_of(h, v as nat) == Some(r2);
                                        assert(0 <= v < u + 1 && hint_of(h, v as nat) == Some(r2));
                                        assert(rank_node@.contains_key(r2));
                                    } else {
                                        assert(!rank_node@.contains_key(r2));
                                    }
                                    if exists|v: int| 0 <= v < u + 1 && #[trigger] hint_of(h, v as nat) == Some(r2) {
                                        let v = choose|v: int| 0 <= v < u + 1 && #[trigger] hint_of(h, v as nat) == Some(r2);
                                        if v < u {
                                            assert(map_before.contains_key(r2));
                                        } else {
                                            assert(r2 == r);
                                        }
                                    }
                                }
                                assert forall|v: int|
                                    0 <= v < u + 1 && #[trigger] hint_of(h, v as nat) is Some implies rank_node@.contains_key(
                                        hint_of(h, v as nat)->0,
                                    ) && rank_node@[hint_of(h, v as nat)->0] == node_of@[v] by {
                                    if v < u && hint_of(h, v as nat)->0 == r {
                                        assert(hint_of(h, v as nat) == Some(r));
                                    }
                                }
                            }
                            k = k + 1;
                        },
                    }
                },
                None => {
                    proof {
                        lemma_push_keeps_first_order(node_of@, k, k);
                    }
                    node_of.push(k);
                    proof {
                        assert forall|v: int, w: int|
                            0 <= v < u + 1 && 0 <= w < u + 1 implies (#[trigger] node_of@[v]
                            == #[trigger] node_of@[w] <==> same_set(h, v as nat, w as nat)) by {
                            if v == u && w < u {
                                assert(node_of@[w] == before[w]);
                            }
                        }
                        assert forall|r2: int| 0 <= r2 < k + 1 implies #[trigger] stands_for_some(node_of@, r2) by {
                            if r2 < k {
                                assert(stands_for_some(before, r2));
                                let v = choose|v: int| 0 <= v < before.len() && before[v] == r2;
                                assert(node_of@[v] == r2);
                            } else {
                                assert(node_of@[u as int] == r2);
                            }
                        }
                        assert forall|r2: RankIdx| #[trigger] rank_node@.contains_key(r2) <==> exists|v: int|
                            0 <= v < u + 1 && #[trigger] hint_of(h, v as nat) == Some(r2) by {
                            if exists|v: int| 0 <= v < u + 1 && #[trigger] hint_of(h, v as nat) == Some(r2) {
                                let v = choose|v: int| 0 <= v < u + 1 && #[trigger] hint_of(h, v as nat) == Some(r2);
                                assert(v < u);
                            }
                        }
                    }
                    k = k + 1;
                },
            }
            u = u + 1;
        }
        let min_node = match rank_node.get(&MIN_RANK) {
            Some(x) => Some(*x),
            None => None,
        };
        let max_node = match rank_node.get(&MAX_RANK) {
            Some(x) => Some(*x),
            None => None,
        };
        (node_of, k, min_node, max_node)
    }
}

} // verus!
