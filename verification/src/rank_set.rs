//! Sets of nodes that should share a rank.
use crate::Node;
use std::collections::HashMap;
use vstd::std_specs::hash::spec_hash_map_iter;
use vstd::std_specs::iter::IteratorSpec;
use vstd::prelude::*;

verus! {

broadcast use {vstd::std_specs::hash::group_hash_axioms, Node::lemma_idx_injective, Node::lemma_from_index_spec};

/// Index of a rank.
pub type RankIdx = usize;

/// The rank reserved for the nodes requested on the first rank.
pub const MIN_RANK: RankIdx = 0;

/// The rank reserved for the nodes requested on the last rank.
pub const MAX_RANK: RankIdx = usize::MAX;

/// The ranks after `m` merges the group `from` into the group `to`: every node with rank `from`
/// gets rank `to`, every other node keeps its rank.
pub open spec fn merged(m: Map<u32, RankIdx>, from: RankIdx, to: RankIdx) -> Map<u32, RankIdx> {
    Map::new(|k: u32| m.dom().contains(k), |k: u32| if m[k] == from { to } else { m[k] })
}

/// The rank hints after asking for nodes `a` and `b` to share a rank, where `next` is the rank
/// that a new set would get.
///
/// Two hinted nodes have their sets merged: into the first rank when one of them is there, into
/// the last rank when one of them is there, and otherwise into the larger of the two ranks. A
/// node without a hint joins the set of the other node, and two nodes without hints form a new
/// set of rank `next`.
pub open spec fn joined(m: Map<u32, RankIdx>, next: RankIdx, a: u32, b: u32) -> Map<u32, RankIdx> {
    match (m.get(a), m.get(b)) {
        (Some(ra), Some(rb)) => {
            let lo = if ra > rb { rb } else { ra };
            let hi = if ra > rb { ra } else { rb };
            if lo == MIN_RANK {
                merged(m, hi, lo)
            } else {
                merged(m, lo, hi)
            }
        },
        (Some(r), None) => m.insert(b, r),
        (None, Some(r)) => m.insert(a, r),
        (None, None) => m.insert(a, next).insert(b, next),
    }
}

/// Whether nodes `a` and `b` can be asked to share a rank: not when one is on the first rank and
/// the other on the last, nor when a new set is needed and every rank has been handed out.
pub open spec fn can_join(m: Map<u32, RankIdx>, next: RankIdx, a: u32, b: u32) -> bool {
    match (m.get(a), m.get(b)) {
        (Some(ra), Some(rb)) => !((ra == MIN_RANK && rb == MAX_RANK) || (ra == MAX_RANK && rb
            == MIN_RANK)),
        (None, None) => next != MAX_RANK,
        _ => true,
    }
}

/// A set of disjoint subsets of all nodes, indicating preferred rank.
///
/// A node is in at most one set. Rank `MIN_RANK` holds the nodes asked for on the first rank,
/// rank `MAX_RANK` those asked for on the last rank; every other set has its own rank,
/// handed out in increasing order starting at 1.
pub struct RankSets {
    ranks: HashMap<u32, RankIdx>,
    next_rank_idx: RankIdx,
}

impl RankSets {
    /// The rank hint of each node that has one, by node index.
    pub closed spec fn hints(&self) -> Map<u32, RankIdx> {
        self.ranks@
    }

    /// The rank that the next new set of nodes gets.
    pub closed spec fn next_rank(&self) -> RankIdx {
        self.next_rank_idx
    }

    /// Every hinted node is on the first rank, the last rank, or a rank handed out already.
    pub open spec fn wf(&self) -> bool {
        &&& 1 <= self.next_rank()
        &&& forall|k: u32|
            #[trigger] self.hints().contains_key(k) ==> {
                let r = self.hints()[k];
                r == MIN_RANK || r == MAX_RANK || (1 <= r < self.next_rank())
            }
    }

    pub fn new() -> (s: Self)
        ensures
            s.wf(),
            s.hints() == Map::<u32, RankIdx>::empty(),
            s.next_rank() == 1,
    {
        RankSets { ranks: HashMap::new(), next_rank_idx: 1 }
    }

    /// Get all nodes with the given rank, each once, in the order the map hands them out.
    fn rank(&self, idx: RankIdx) -> (nodes: Vec<Node>)
        ensures
            nodes@.no_duplicates(),
            forall|n: Node|
                #![trigger nodes@.contains(n)]
                nodes@.contains(n) <==> (self.hints().contains_key(n.idx()) && self.hints()[n.idx()]
                    == idx),
    {
        let mut nodes: Vec<Node> = Vec::new();
        for (k, r) in it: self.ranks.iter()
            invariant
                nodes@.no_duplicates(),
                it.seq() == spec_hash_map_iter(&self.ranks).remaining(),
                it.seq().no_duplicates(),
                forall|j: int|
                    0 <= j < it.seq().len() ==> #[trigger] self.hints().contains_key(*it.seq()[j].0)
                        && self.hints()[*it.seq()[j].0] == *it.seq()[j].1,
                forall|n: Node|
                    #![trigger nodes@.contains(n)]
                    nodes@.contains(n) <==> exists|j: int|
                        0 <= j < it.index() && *it.seq()[j].0 == n.idx() && *it.seq()[j].1 == idx,
        {
            let ghost i = it.index();
            assert(0 <= i < it.seq().len());
            assert(it.seq()[i] == (k, r));
            let ghost before = nodes@;
            let ghost mut added: Node = Node::from_index_spec(*k);
            if *r == idx {
                let n = Node::from_index(*k);
                proof {
                    if before.contains(n) {
                        let j = choose|j: int|
                            0 <= j < i + 1 && *it.seq()[j].0 == n.idx() && *it.seq()[j].1 == idx;
                        assert(self.hints().contains_key(*it.seq()[j].0));
                        assert(self.hints().contains_key(*it.seq()[i].0));
                        assert(it.seq()[j] == it.seq()[i]);
                    }
                }
                nodes.push(n);
                proof {
                    added = n;
                }
            }
            assert(*r == idx ==> nodes@ == before.push(added) && added.idx() == *k);
            assert(*r != idx ==> nodes@ == before);
            proof {
                assert forall|n: Node| #![trigger nodes@.contains(n)]
                    nodes@.contains(n) <==> exists|j: int|
                        0 <= j < i + 1 && *it.seq()[j].0 == n.idx() && *it.seq()[j].1 == idx by {
                    if nodes@.contains(n) && !before.contains(n) {
                        assert(*it.seq()[i].0 == n.idx());
                    }
                    if exists|j: int| 0 <= j < i + 1 && *it.seq()[j].0 == n.idx() && *it.seq()[j].1 == idx {
                        let j = choose|j: int| 0 <= j < i + 1 && *it.seq()[j].0 == n.idx() && *it.seq()[j].1 == idx;
                        if j < i {
                            assert(before.contains(n));
                            let w = choose|w: int| 0 <= w < before.len() && before[w] == n;
                            assert(nodes@[w] == n);
                        } else {
                            assert(*r == idx);
                            assert(added == n);
                            assert(nodes@[nodes@.len() - 1] == added);
                        }
                        assert(nodes@.contains(n));
                    }
                }
            }
        }
        nodes
    }

    /// Request that the node be given max rank.
    ///
    /// The node must not have a rank hint yet.
    pub fn set_rank_max(&mut self, node: Node)
        requires
            old(self).wf(),
            !old(self).hints().contains_key(node.idx()),
        ensures
            final(self).wf(),
            final(self).hints() == old(self).hints().insert(node.idx(), MAX_RANK),
            final(self).next_rank() == old(self).next_rank(),
    {
        self.ranks.insert(node.index(), MAX_RANK);
    }

    /// Request that the node be given min rank.
    ///
    /// The node must not have a rank hint yet.
    pub fn set_rank_min(&mut self, node: Node)
        requires
            old(self).wf(),
            !old(self).hints().contains_key(node.idx()),
        ensures
            final(self).wf(),
            final(self).hints() == old(self).hints().insert(node.idx(), MIN_RANK),
            final(self).next_rank() == old(self).next_rank(),
    {
        self.ranks.insert(node.index(), MIN_RANK);
    }

    /// Indicate that the two nodes should be ranked together.
    ///
    /// If both nodes already have hints, then those two groups will be merged. The call is
    /// refused (by its precondition) when one node is from the max rank group and the other is
    /// from the min rank group.
    pub fn set_rank(&mut self, a: Node, b: Node)
        requires
            old(self).wf(),
            can_join(old(self).hints(), old(self).next_rank(), a.idx(), b.idx()),
        ensures
            final(self).wf(),
            final(self).hints() == joined(
                old(self).hints(),
                old(self).next_rank(),
                a.idx(),
                b.idx(),
            ),
            final(self).next_rank() == if old(self).hints().contains_key(a.idx())
                || old(self).hints().contains_key(b.idx()) {
                old(self).next_rank()
            } else {
                (old(self).next_rank() + 1) as RankIdx
            },
            old(self).hints().contains_key(a.idx()) && !old(self).hints().contains_key(b.idx())
                ==> final(self).hints() == old(self).hints().insert(b.idx(), old(self).hints()[a.idx()]),
            !old(self).hints().contains_key(a.idx()) && old(self).hints().contains_key(b.idx())
                ==> final(self).hints() == old(self).hints().insert(a.idx(), old(self).hints()[b.idx()]),
    {
        match (self.node_rank(a), self.node_rank(b)) {
            (Some(rank_a), Some(rank_b)) => {
                let (rank_a, rank_b) = if rank_a > rank_b {
                    (rank_b, rank_a)
                } else {
                    (rank_a, rank_b)
                };
                // now rank_a <= rank_b
                if rank_a == MIN_RANK {
                    self.merge_ranks(rank_b, rank_a)
                } else if rank_b == MAX_RANK {
                    self.merge_ranks(rank_a, rank_b)
                } else {
                    // doesn't matter which way we merge.
                    self.merge_ranks(rank_a, rank_b)
                }
            },
            (Some(rank), None) => self.add_rank(b, rank),
            (None, Some(rank)) => self.add_rank(a, rank),
            (None, None) => {
                let rank = self.new_rank();
                self.add_rank(a, rank);
                self.add_rank(b, rank);
            },
        }
    }

    /// Get all nodes with minimum rank, each once.
    pub fn rank_min(&self) -> (nodes: Vec<Node>)
        ensures
            nodes@.no_duplicates(),
            forall|n: Node|
                #![trigger nodes@.contains(n)]
                nodes@.contains(n) <==> (self.hints().contains_key(n.idx()) && self.hints()[n.idx()]
                    == MIN_RANK),
    {
        self.rank(MIN_RANK)
    }

    /// Get all nodes with maximum rank, each once.
    pub fn rank_max(&self) -> (nodes: Vec<Node>)
        ensures
            nodes@.no_duplicates(),
            forall|n: Node|
                #![trigger nodes@.contains(n)]
                nodes@.contains(n) <==> (self.hints().contains_key(n.idx()) && self.hints()[n.idx()]
                    == MAX_RANK),
    {
        self.rank(MAX_RANK)
    }

    /// Move every node of rank `from` to rank `to`.
    fn merge_ranks(&mut self, from: RankIdx, to: RankIdx)
        ensures
            final(self).hints() == merged(old(self).hints(), from, to),
            final(self).next_rank() == old(self).next_rank(),
    {
        let nodes = self.rank(from);
        let ghost start = self.ranks@;
        let mut i: usize = 0;
        while i < nodes.len()
            invariant
                0 <= i <= nodes.len(),
                nodes@.no_duplicates(),
                self.next_rank_idx == old(self).next_rank_idx,
                start == old(self).ranks@,
                forall|n: Node|
                    #![trigger nodes@.contains(n)]
                    nodes@.contains(n) <==> (start.contains_key(n.idx()) && start[n.idx()] == from),
                self.ranks@.dom() == start.dom(),
                forall|k: u32|
                    #[trigger] self.ranks@.contains_key(k) ==> self.ranks@[k] == (if (exists|j: int|
                        0 <= j < i && nodes@[j].idx() == k) {
                        to
                    } else {
                        start[k]
                    }),
            decreases nodes.len() - i,
        {
            let n = nodes[i];
            assert(nodes@.contains(n));
            self.ranks.insert(n.index(), to);
            proof {
                assert forall|k: u32| #[trigger] self.ranks@.contains_key(k) implies self.ranks@[k]
                    == (if (exists|j: int| 0 <= j < i + 1 && nodes@[j].idx() == k) {
                    to
                } else {
                    start[k]
                }) by {
                    if k == n.idx() {
                        assert(nodes@[i as int].idx() == k);
                    } else {
                        if exists|j: int| 0 <= j < i + 1 && nodes@[j].idx() == k {
                            let j = choose|j: int| 0 <= j < i + 1 && nodes@[j].idx() == k;
                            assert(j != i);
                        }
                    }
                }
            }
            i = i + 1;
        }
        proof {
            assert forall|k: u32| #[trigger] self.ranks@.contains_key(k) implies self.ranks@[k]
                == merged(start, from, to)[k] by {
                if start[k] == from {
                    assert(nodes@.contains(Node::from_index_spec(k)));
                    let j = choose|j: int|
                        0 <= j < nodes@.len() && nodes@[j] == Node::from_index_spec(k);
                    assert(nodes@[j].idx() == k);
                } else {
                    if exists|j: int| 0 <= j < nodes@.len() && nodes@[j].idx() == k {
                        let j = choose|j: int| 0 <= j < nodes@.len() && nodes@[j].idx() == k;
                        assert(nodes@.contains(nodes@[j]));
                    }
                }
            }
            assert(self.ranks@ =~= merged(start, from, to));
        }
    }

    /// Put the node in the given rank.
    fn add_rank(&mut self, node: Node, rank: RankIdx)
        ensures
            final(self).hints() == old(self).hints().insert(node.idx(), rank),
            final(self).next_rank() == old(self).next_rank(),
    {
        self.ranks.insert(node.index(), rank);
    }

    /// Hand out a rank that no set of nodes has yet.
    fn new_rank(&mut self) -> (rank: RankIdx)
        requires
            old(self).next_rank() != MAX_RANK,
        ensures
            rank == old(self).next_rank(),
            final(self).next_rank() == old(self).next_rank() + 1,
            final(self).hints() == old(self).hints(),
    {
        let rank = self.next_rank_idx;
        self.next_rank_idx = self.next_rank_idx + 1;
        rank
    }

    /// The rank that the next new set of nodes gets.
    pub fn next_new_rank(&self) -> (r: RankIdx)
        ensures
            r == self.next_rank(),
    {
        self.next_rank_idx
    }

    /// Get the rank for a particular node.
    pub fn node_rank(&self, node: Node) -> (r: Option<RankIdx>)
        ensures
            r == self.hints().get(node.idx()),
    {
        match self.ranks.get(&node.index()) {
            Some(r) => Some(*r),
            None => None,
        }
    }
}

} // verus!

verus! {

/// Asking two nodes to share a rank puts them in the same set.
pub proof fn lemma_set_rank_joins(s: RankSets, a: Node, b: Node)
    requires
        can_join(s.hints(), s.next_rank(), a.idx(), b.idx()),
    ensures
        ({
            let m = joined(s.hints(), s.next_rank(), a.idx(), b.idx());
            &&& m.contains_key(a.idx())
            &&& m.contains_key(b.idx())
            &&& m[a.idx()] == m[b.idx()]
        }),
{
}

/// Asking two nodes to share a rank never separates nodes that shared a rank, keeps every hint
/// that was given, and gives hints to those two nodes only.
pub proof fn lemma_set_rank_keeps_sets(s: RankSets, a: Node, b: Node)
    requires
        can_join(s.hints(), s.next_rank(), a.idx(), b.idx()),
    ensures
        ({
            let old_m = s.hints();
            let m = joined(old_m, s.next_rank(), a.idx(), b.idx());
            &&& m.dom() == old_m.dom().insert(a.idx()).insert(b.idx())
            &&& forall|x: u32, y: u32|
                old_m.contains_key(x) && old_m.contains_key(y) && old_m[x] == old_m[y] ==> #[trigger] m[x]
                    == #[trigger] m[y]
        }),
{
    let old_m = s.hints();
    let m = joined(old_m, s.next_rank(), a.idx(), b.idx());
    assert(m.dom() =~= old_m.dom().insert(a.idx()).insert(b.idx()));
}

/// The nodes on the first rank stay there, and so do the nodes on the last rank.
pub proof fn lemma_set_rank_keeps_first_and_last(s: RankSets, a: Node, b: Node, x: Node)
    requires
        can_join(s.hints(), s.next_rank(), a.idx(), b.idx()),
        s.hints().contains_key(x.idx()),
        s.hints()[x.idx()] == MIN_RANK || s.hints()[x.idx()] == MAX_RANK,
    ensures
        joined(s.hints(), s.next_rank(), a.idx(), b.idx())[x.idx()] == s.hints()[x.idx()],
{
}

/// A node that shares a set with neither `a` nor `b` keeps its rank.
pub proof fn lemma_set_rank_leaves_others(s: RankSets, a: Node, b: Node, x: Node)
    requires
        can_join(s.hints(), s.next_rank(), a.idx(), b.idx()),
        s.hints().contains_key(x.idx()),
        x.idx() != a.idx(),
        x.idx() != b.idx(),
        s.hints().get(a.idx()) != Some(s.hints()[x.idx()]),
        s.hints().get(b.idx()) != Some(s.hints()[x.idx()]),
    ensures
        joined(s.hints(), s.next_rank(), a.idx(), b.idx())[x.idx()] == s.hints()[x.idx()],
{
}

/// Asking `a` and `b` to share a rank is the same as asking `b` and `a`: both calls are
/// admitted or neither is, and they give the same rank hints (and, by `set_rank`'s contract,
/// the same next rank).
pub proof fn lemma_set_rank_symmetric(s: RankSets, a: Node, b: Node)
    ensures
        can_join(s.hints(), s.next_rank(), a.idx(), b.idx()) == can_join(
            s.hints(),
            s.next_rank(),
            b.idx(),
            a.idx(),
        ),
        joined(s.hints(), s.next_rank(), a.idx(), b.idx()) == joined(
            s.hints(),
            s.next_rank(),
            b.idx(),
            a.idx(),
        ),
{
    let m = s.hints();
    let n = s.next_rank();
    if m.get(a.idx()) is None && m.get(b.idx()) is None {
        assert(m.insert(a.idx(), n).insert(b.idx(), n) =~= m.insert(b.idx(), n).insert(a.idx(), n));
    }
}

/// When exactly one of the two nodes has a rank hint, the other joins it on that rank: no other
/// hint changes and no other node gets one.
pub proof fn lemma_set_rank_one_hinted(s: RankSets, a: Node, b: Node)
    requires
        s.hints().contains_key(a.idx()) != s.hints().contains_key(b.idx()),
    ensures
        ({
            let m = s.hints();
            let m2 = joined(m, s.next_rank(), a.idx(), b.idx());
            let (hinted, other) = if m.contains_key(a.idx()) {
                (a.idx(), b.idx())
            } else {
                (b.idx(), a.idx())
            };
            &&& m2.dom() == m.dom().insert(other)
            &&& m2[other] == m[hinted]
            &&& forall|x: u32| #[trigger] m.contains_key(x) ==> m2[x] == m[x]
        }),
{
    let m = s.hints();
    let m2 = joined(m, s.next_rank(), a.idx(), b.idx());
    let other = if m.contains_key(a.idx()) { b.idx() } else { a.idx() };
    assert(m2.dom() =~= m.dom().insert(other));
}

/// A node ends up on the first or the last rank only when it was there already, or when one of
/// the two nodes asked to share a rank was there.
pub proof fn lemma_set_rank_ends_come_from_inputs(s: RankSets, a: Node, b: Node, x: u32)
    requires
        s.wf(),
        can_join(s.hints(), s.next_rank(), a.idx(), b.idx()),
    ensures
        ({
            let m = s.hints();
            let m2 = joined(m, s.next_rank(), a.idx(), b.idx());
            m2.contains_key(x) && (m2[x] == MIN_RANK || m2[x] == MAX_RANK) ==> m.get(x) == Some(m2[x])
                || m.get(a.idx()) == Some(m2[x]) || m.get(b.idx()) == Some(m2[x])
        }),
{
}

/// Two nodes without hints that are asked to share a rank form a set of their own.
pub proof fn lemma_set_rank_new_set(s: RankSets, a: Node, b: Node, x: Node)
    requires
        s.wf(),
        !s.hints().contains_key(a.idx()),
        !s.hints().contains_key(b.idx()),
        s.next_rank() != MAX_RANK,
    ensures
        ({
            let m = joined(s.hints(), s.next_rank(), a.idx(), b.idx());
            m.contains_key(x.idx()) && m[x.idx()] == m[a.idx()] <==> x.idx() == a.idx() || x.idx()
                == b.idx()
        }),
{
    if s.hints().contains_key(x.idx()) {
        assert(s.hints()[x.idx()] != s.next_rank());
    }
}

} // verus!
