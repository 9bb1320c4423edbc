use gansner::rank_set::{RankSets, MAX_RANK, MIN_RANK};
use gansner::Gansner;
use gansner::Node;
use kurbo::Size;

fn nodes(n: usize) -> Vec<Node> {
    let mut g: Gansner<()> = Gansner::new();
    (0..n).map(|_| g.add_node((), Size::new(1., 1.))).collect()
}

fn sorted(mut v: Vec<Node>) -> Vec<u32> {
    let mut r: Vec<u32> = v.drain(..).map(|n| n.index()).collect();
    r.sort();
    r
}

#[test]
fn new_rank_sets_are_empty() {
    let n = nodes(2);
    let s = RankSets::new();
    assert_eq!(s.node_rank(n[0]), None);
    assert!(s.rank_min().is_empty());
    assert!(s.rank_max().is_empty());
}

#[test]
fn min_and_max_hints() {
    let n = nodes(4);
    let mut s = RankSets::new();
    s.set_rank_min(n[0]);
    s.set_rank_max(n[1]);
    s.set_rank_min(n[2]);
    assert_eq!(s.node_rank(n[0]), Some(MIN_RANK));
    assert_eq!(s.node_rank(n[1]), Some(MAX_RANK));
    assert_eq!(s.node_rank(n[3]), None);
    assert_eq!(sorted(s.rank_min()), vec![0, 2]);
    assert_eq!(sorted(s.rank_max()), vec![1]);
}

#[test]
fn two_unhinted_nodes_form_a_new_set() {
    let n = nodes(5);
    let mut s = RankSets::new();
    s.set_rank(n[0], n[1]);
    assert_eq!(s.node_rank(n[0]), Some(1));
    assert_eq!(s.node_rank(n[1]), Some(1));
    s.set_rank(n[2], n[3]);
    assert_eq!(s.node_rank(n[2]), Some(2));
    assert_eq!(s.node_rank(n[3]), Some(2));
    assert_eq!(s.node_rank(n[4]), None);
}

#[test]
fn unhinted_node_joins_the_other() {
    let n = nodes(4);
    let mut s = RankSets::new();
    s.set_rank_max(n[0]);
    s.set_rank(n[0], n[1]);
    assert_eq!(s.node_rank(n[1]), Some(MAX_RANK));
    s.set_rank(n[2], n[0]);
    assert_eq!(s.node_rank(n[2]), Some(MAX_RANK));
    assert_eq!(sorted(s.rank_max()), vec![0, 1, 2]);
}

#[test]
fn merging_sets_takes_the_larger_rank() {
    let n = nodes(4);
    let mut s = RankSets::new();
    s.set_rank(n[0], n[1]); // rank 1
    s.set_rank(n[2], n[3]); // rank 2
    s.set_rank(n[1], n[3]);
    for i in 0..4 {
        assert_eq!(s.node_rank(n[i]), Some(2));
    }
}

#[test]
fn merging_into_min_rank() {
    let n = nodes(4);
    let mut s = RankSets::new();
    s.set_rank(n[0], n[1]); // rank 1
    s.set_rank_min(n[2]);
    s.set_rank(n[1], n[2]);
    assert_eq!(sorted(s.rank_min()), vec![0, 1, 2]);
    assert_eq!(s.node_rank(n[3]), None);
}

#[test]
fn merging_into_max_rank() {
    let n = nodes(4);
    let mut s = RankSets::new();
    s.set_rank(n[0], n[1]); // rank 1
    s.set_rank(n[2], n[3]); // rank 2
    s.set_rank_max(nodes(5)[4]);
    let m = nodes(5)[4];
    s.set_rank(m, n[3]);
    assert_eq!(sorted(s.rank_max()), vec![2, 3, 4]);
    assert_eq!(s.node_rank(n[0]), Some(1));
}

#[test]
fn same_set_twice_changes_nothing() {
    let n = nodes(2);
    let mut s = RankSets::new();
    s.set_rank(n[0], n[1]);
    s.set_rank(n[1], n[0]);
    assert_eq!(s.node_rank(n[0]), Some(1));
    assert_eq!(s.node_rank(n[1]), Some(1));
}
