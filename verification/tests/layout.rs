use gansner::layout::{reverse_picked_edges, RankEdge};
use gansner::{Edge, Gansner, Node, ONE_WEIGHT_BITS};
use kurbo::{Point, Size};
use std::collections::HashMap;

const SZ: Size = Size::new(10., 10.);

fn endpoints(g: &Gansner<u32>) -> Vec<(u32, u32)> {
    let mut e: Vec<(u32, u32)> = g
        .edge_list()
        .into_iter()
        .map(|(a, b, _)| (a.index(), b.index()))
        .collect();
    e.sort();
    e
}

fn in_order(g: &Gansner<u32>) -> Vec<(u32, u32, usize, u64)> {
    g.edge_list()
        .into_iter()
        .map(|(a, b, w)| (a.index(), b.index(), w.min_rank_len, w.weight_bits))
        .collect()
}

fn full(g: &Gansner<u32>) -> Vec<(u32, u32, usize, u64)> {
    let mut e: Vec<(u32, u32, usize, u64)> = g
        .edge_list()
        .into_iter()
        .map(|(a, b, w)| (a.index(), b.index(), w.min_rank_len, w.weight_bits))
        .collect();
    e.sort();
    e
}

/// Whether the edges admit a topological order (Kahn's algorithm).
fn acyclic(n: usize, edges: &[(u32, u32)]) -> bool {
    let mut indeg = vec![0usize; n];
    for &(_, b) in edges {
        indeg[b as usize] += 1;
    }
    let mut ready: Vec<usize> = (0..n).filter(|&v| indeg[v] == 0).collect();
    let mut seen = 0;
    while let Some(v) = ready.pop() {
        seen += 1;
        for &(a, b) in edges {
            if a as usize == v {
                indeg[b as usize] -= 1;
                if indeg[b as usize] == 0 {
                    ready.push(b as usize);
                }
            }
        }
    }
    seen == n
}

fn simple() -> (Gansner<u32>, Vec<Node>) {
    let mut g = Gansner::new();
    let a = g.add_node(0, SZ);
    let b = g.add_node(1, SZ);
    let c = g.add_node(2, SZ);
    let d = g.add_node(3, SZ);
    g.add_edge(a, b);
    g.add_edge(a, c);
    g.add_edge(b, d);
    g.add_edge(c, d);
    g.add_edge(d, a);
    (g, vec![a, b, c, d])
}

#[test]
fn nodes_get_consecutive_indices() {
    let (g, n) = simple();
    assert_eq!(n.iter().map(|x| x.index()).collect::<Vec<_>>(), vec![0, 1, 2, 3]);
    assert_eq!(g.node_count(), 4);
    assert_eq!(g.edge_count(), 5);
}

#[test]
fn edges_are_listed_in_insertion_order() {
    let (g, _) = simple();
    let e: Vec<(u32, u32)> = g
        .edge_list()
        .into_iter()
        .map(|(a, b, _)| (a.index(), b.index()))
        .collect();
    assert_eq!(e, vec![(0, 1), (0, 2), (1, 3), (2, 3), (3, 0)]);
}

#[test]
fn layout_keeps_the_edges() {
    let (mut g, _) = simple();
    let before = in_order(&g);
    g.layout();
    assert_eq!(in_order(&g), before);
    g.layout();
    assert_eq!(in_order(&g), before);
}

#[test]
fn layout_debug_keeps_the_edges() {
    let (mut g, n) = simple();
    g.add_edge(n[2], n[2]);
    g.set_rank_min(n[3]);
    let before = in_order(&g);
    g.layout_debug();
    assert_eq!(in_order(&g), before);
}

#[test]
fn iter_nodes_after_layout() {
    let (mut g, _) = simple();
    g.layout();
    let nodes = g.iter_nodes();
    assert_eq!(nodes.len(), 4);
    for (i, (data, pos)) in nodes.into_iter().enumerate() {
        assert_eq!(data, i as u32);
        assert!(pos == Point::ZERO);
    }
}

/// The edges of the graph that ranks are assigned on, by endpoints.
fn rank_ends(edges: &[(u32, u32, usize)]) -> Vec<(u32, u32)> {
    edges.iter().map(|&(a, b, _)| (a, b)).collect()
}

#[test]
fn prepare_leaves_the_graph_as_it_was() {
    let (g, _) = simple();
    let before = in_order(&g);
    let adj = g.prepare_rank_assignment();
    assert_eq!(in_order(&g), before);
    assert_eq!(adj.condensed_nodes(), vec![0, 1, 2, 3]);
    assert_eq!(adj.condensed_count(), 4);
    assert_eq!(adj.present_nodes(), vec![true; 4]);
    let edges = adj.rank_edges();
    assert_eq!(edges.len(), 5);
    assert!(acyclic(4, &rank_ends(&edges)));
    let mut g = g;
    g.undo_modify_edges(adj);
    assert_eq!(in_order(&g), before);
}

#[test]
fn prepare_breaks_the_cycle() {
    let (g, _) = simple();
    assert!(!acyclic(4, &endpoints(&g)));
    let adj = g.prepare_rank_assignment();
    let edges = adj.rank_edges();
    assert!(acyclic(4, &rank_ends(&edges)));
    let mut undirected: Vec<(u32, u32)> = edges.iter().map(|&(a, b, _)| (a.min(b), a.max(b))).collect();
    undirected.sort();
    assert_eq!(undirected, vec![(0, 1), (0, 2), (0, 3), (1, 3), (2, 3)]);
    assert!(edges.iter().all(|&(_, _, len)| len == 1));
}

#[test]
fn prepare_condenses_each_set() {
    let mut g: Gansner<u32> = Gansner::new();
    let a = g.add_node(0, SZ);
    let b = g.add_node(1, SZ);
    let c = g.add_node(2, SZ);
    g.set_rank_same(a, b);
    g.add_edge(a, c);
    g.add_edge(b, c);
    g.add_edge(a, c);
    let adj = g.prepare_rank_assignment();
    assert_eq!(adj.condensed_nodes(), vec![0, 0, 1]);
    assert_eq!(adj.condensed_count(), 2);
    assert_eq!(adj.min_rank_node(), None);
    assert_eq!(adj.max_rank_node(), None);
    // node 1 (for c) is a leaf outside every set: it goes, with the merged edge
    assert_eq!(adj.present_nodes(), vec![true, false]);
    assert_eq!(adj.rank_edges(), vec![]);
    assert_eq!(adj.edge_for_each(), vec![None, None, None]);
    assert_eq!(g.node_count(), 3);
    assert_eq!(g.edge_count(), 3);
}

#[test]
fn prepare_merges_parallel_edges() {
    let mut g: Gansner<u32> = Gansner::new();
    let n: Vec<Node> = (0..4).map(|i| g.add_node(i, SZ)).collect();
    g.set_rank_same(n[0], n[1]);
    g.add_edge(n[0], n[2]);
    g.add_edge_with_options(n[1], n[2], 3, 2.0f64.to_bits());
    g.add_edge(n[2], n[3]);
    g.add_edge(n[3], n[0]);
    let adj = g.prepare_rank_assignment();
    assert_eq!(adj.condensed_nodes(), vec![0, 0, 1, 2]);
    assert_eq!(adj.present_nodes(), vec![true, true, true]);
    let edges = adj.rank_edges();
    assert_eq!(edges.len(), 3);
    let each = adj.edge_for_each();
    assert_eq!(each[0], each[1]);
    assert!(each.iter().all(|e| e.is_some()));
    let merged = edges[each[0].unwrap()];
    assert_eq!(merged.2, 3);
    assert!(merged == (0, 1, 3) || merged == (1, 0, 3));
    assert!(acyclic(3, &rank_ends(&edges)));
}

#[test]
fn prepare_removes_loops() {
    let mut g: Gansner<u32> = Gansner::new();
    let a = g.add_node(0, SZ);
    let b = g.add_node(1, SZ);
    g.add_edge(a, a);
    g.add_edge(a, b);
    g.add_edge(b, b);
    g.add_edge(b, a);
    let before = in_order(&g);
    let adj = g.prepare_rank_assignment();
    let each = adj.edge_for_each();
    assert_eq!(each[0], None);
    assert_eq!(each[2], None);
    assert!(each[1].is_some() && each[3].is_some() && each[1] != each[3]);
    let edges = adj.rank_edges();
    assert_eq!(edges.len(), 2);
    assert!(edges.iter().all(|&(x, y, _)| x != y));
    assert!(acyclic(2, &rank_ends(&edges)));
    assert_eq!(in_order(&g), before);
}

#[test]
fn prepare_removes_free_leaves() {
    let mut g: Gansner<u32> = Gansner::new();
    let a = g.add_node(0, SZ);
    let b = g.add_node(1, SZ);
    let c = g.add_node(2, SZ);
    let d = g.add_node(3, SZ);
    g.add_edge(a, b);
    g.add_edge(b, c);
    g.add_edge(c, d);
    g.set_rank_same(d, d);
    let adj = g.prepare_rank_assignment();
    // a is a leaf outside every set; d is a leaf too, but it has a rank hint
    assert_eq!(adj.present_nodes(), vec![false, true, true, true]);
    assert_eq!(adj.edge_for_each(), vec![None, Some(0), Some(1)]);
    assert_eq!(adj.rank_edges(), vec![(1, 2, 1), (2, 3, 1)]);
}

#[test]
fn prepare_adds_edges_from_min_and_to_max() {
    let mut g: Gansner<u32> = Gansner::new();
    let m = g.add_node(0, SZ);
    let _x = g.add_node(1, SZ);
    g.set_rank_min(m);
    let adj = g.prepare_rank_assignment();
    assert_eq!(adj.min_rank_node(), Some(0));
    assert_eq!(adj.rank_edges(), vec![(0, 1, 0)]);
    assert_eq!(g.edge_count(), 0);

    let mut g: Gansner<u32> = Gansner::new();
    let m = g.add_node(0, SZ);
    let x = g.add_node(1, SZ);
    let y = g.add_node(2, SZ);
    g.set_rank_min(m);
    g.set_rank_max(y);
    g.add_edge(x, x);
    let adj = g.prepare_rank_assignment();
    assert_eq!(adj.min_rank_node(), Some(0));
    assert_eq!(adj.max_rank_node(), Some(2));
    let mut edges = adj.rank_edges();
    edges.sort();
    assert_eq!(edges, vec![(0, 1, 0), (0, 2, 0), (0, 2, 0), (1, 2, 0)]);
}

#[test]
fn prepare_points_edges_out_of_min_and_into_max() {
    let mut g: Gansner<u32> = Gansner::new();
    let n: Vec<Node> = (0..5).map(|i| g.add_node(i, SZ)).collect();
    g.add_edge(n[1], n[0]);
    g.add_edge(n[0], n[4]);
    g.add_edge(n[4], n[2]);
    g.add_edge(n[2], n[3]);
    g.add_edge(n[3], n[1]);
    g.set_rank_min(n[0]);
    g.set_rank_max(n[4]);
    let adj = g.prepare_rank_assignment();
    let mn = adj.min_rank_node().unwrap();
    let mx = adj.max_rank_node().unwrap();
    let edges = rank_ends(&adj.rank_edges());
    assert!(acyclic(5, &edges));
    assert!(edges.iter().all(|&(_, y)| y != mn));
    assert!(edges.iter().all(|&(x, _)| x != mx));
    for v in 0..5u32 {
        if v != mn {
            assert!(edges.iter().any(|&(_, y)| y == v));
        }
        if v != mx {
            assert!(edges.iter().any(|&(x, _)| x == v));
        }
    }
}

#[test]
fn parallel_edges_survive_layout() {
    let mut g: Gansner<u32> = Gansner::new();
    let a = g.add_node(0, SZ);
    let b = g.add_node(1, SZ);
    g.add_edge(a, b);
    g.add_edge(a, b);
    g.add_edge(b, a);
    g.add_edge(b, a);
    g.add_edge_with_options(b, a, 3, 2.5f64.to_bits());
    g.add_edge_with_options(a, a, 2, 0.25f64.to_bits());
    let before = full(&g);
    let exact = in_order(&g);
    let adj = g.prepare_rank_assignment();
    let edges = adj.rank_edges();
    assert_eq!(edges.len(), 2);
    assert!(acyclic(2, &rank_ends(&edges)));
    let each = adj.edge_for_each();
    assert_eq!(each[0], each[1]);
    assert_eq!(each[2], each[3]);
    assert_eq!(each[2], each[4]);
    assert_eq!(each[5], None);
    assert_eq!(edges[each[2].unwrap()].2, 3);
    assert_eq!(edges[each[0].unwrap()].2, 1);
    g.undo_modify_edges(adj);
    assert_eq!(full(&g), before);
    g.layout();
    assert_eq!(in_order(&g), exact);
    assert!(before.contains(&(1, 0, 3, 2.5f64.to_bits())));
}

#[test]
fn larger_graph_round_trip() {
    let mut g: Gansner<u32> = Gansner::with_capacity(20, 60);
    let n: Vec<Node> = (0..20).map(|i| g.add_node(i, SZ)).collect();
    let mut state: u32 = 7;
    for _ in 0..60 {
        state = state.wrapping_mul(1103515245).wrapping_add(12345);
        let a = (state >> 8) % 20;
        state = state.wrapping_mul(1103515245).wrapping_add(12345);
        let b = (state >> 8) % 20;
        g.add_edge(n[a as usize], n[b as usize]);
    }
    g.set_rank_min(n[3]);
    g.set_rank_max(n[7]);
    g.set_rank_same(n[1], n[2]);
    let exact = in_order(&g);
    let adj = g.prepare_rank_assignment();
    let nodes = adj.condensed_nodes();
    assert_eq!(nodes[1], nodes[2]);
    assert_eq!(adj.condensed_count(), 19);
    let edges = adj.rank_edges();
    assert!(acyclic(19, &rank_ends(&edges)));
    let each = adj.edge_for_each();
    for (j, &(a, b, _, _)) in exact.iter().enumerate() {
        if nodes[a as usize] == nodes[b as usize] {
            assert_eq!(each[j], None);
        }
    }
    assert_eq!(in_order(&g), exact);
    g.layout();
    assert_eq!(in_order(&g), exact);
    let mut count: HashMap<u32, usize> = HashMap::new();
    for (d, _) in g.iter_nodes() {
        *count.entry(d).or_insert(0) += 1;
    }
    assert_eq!(count.len(), 20);
}

#[test]
fn node_rank_and_laid_out() {
    let (mut g, n) = simple();
    assert_eq!(g.node_rank(n[0]), None);
    g.set_rank_min(n[0]);
    g.set_rank_max(n[3]);
    g.set_rank_same(n[1], n[2]);
    assert_eq!(g.node_rank(n[0]), Some(0));
    assert_eq!(g.node_rank(n[3]), Some(usize::MAX));
    assert_eq!(g.node_rank(n[1]), Some(1));
    assert_eq!(g.node_rank(n[2]), Some(1));
    assert!(!g.is_laid_out());
    g.layout();
    assert!(g.is_laid_out());
    g.add_edge(n[0], n[1]);
    assert!(!g.is_laid_out());
}

#[test]
fn edge_builders() {
    let e = Edge::new();
    assert_eq!(e.min_rank_len, 1);
    assert_eq!(e.weight_bits, ONE_WEIGHT_BITS);
    assert_eq!(f64::from_bits(e.weight_bits), 1.0);
    let e = Edge::new().with_min_rank_len(4).with_weight(0.5f64.to_bits());
    assert_eq!(e.min_rank_len, 4);
    assert_eq!(f64::from_bits(e.weight_bits), 0.5);
    let mut e = e;
    e.set_min_rank_len(2);
    e.set_weight(0f64.to_bits());
    assert_eq!(e, Edge { min_rank_len: 2, weight_bits: 0 });
}

#[test]
fn reverse_picked_edges_flips_exactly_the_picked() {
    let s = vec![
        RankEdge { from: 0, to: 1, min_rank_len: 1 },
        RankEdge { from: 1, to: 2, min_rank_len: 2 },
        RankEdge { from: 2, to: 0, min_rank_len: 3 },
    ];
    let out: Vec<(u32, u32, usize)> = reverse_picked_edges(&s, &vec![2, 0])
        .iter()
        .map(|e| (e.from, e.to, e.min_rank_len))
        .collect();
    assert_eq!(out, vec![(1, 0, 1), (1, 2, 2), (0, 2, 3)]);
    let same: Vec<(u32, u32, usize)> = reverse_picked_edges(&s, &vec![])
        .iter()
        .map(|e| (e.from, e.to, e.min_rank_len))
        .collect();
    assert_eq!(same, vec![(0, 1, 1), (1, 2, 2), (2, 0, 3)]);
}

#[test]
fn condensed_nodes_are_numbered_by_first_node() {
    let mut g: Gansner<u32> = Gansner::new();
    let n: Vec<Node> = (0..5).map(|i| g.add_node(i, SZ)).collect();
    g.set_rank_same(n[1], n[3]);
    g.set_rank_min(n[4]);
    g.set_rank_same(n[2], n[4]);
    let adj = g.prepare_rank_assignment();
    assert_eq!(adj.condensed_nodes(), vec![0, 1, 2, 1, 2]);
    assert_eq!(adj.condensed_count(), 3);
    assert_eq!(adj.min_rank_node(), Some(2));
}

#[test]
fn merged_edges_come_in_order_of_first_edge() {
    let mut g: Gansner<u32> = Gansner::new();
    let n: Vec<Node> = (0..4).map(|i| g.add_node(i, SZ)).collect();
    g.add_edge(n[2], n[3]);
    g.add_edge(n[0], n[1]);
    g.add_edge(n[3], n[2]);
    g.add_edge(n[1], n[0]);
    g.add_edge(n[2], n[3]);
    let adj = g.prepare_rank_assignment();
    assert_eq!(adj.present_nodes(), vec![true; 4]);
    assert_eq!(adj.edge_for_each(), vec![Some(0), Some(1), Some(2), Some(3), Some(0)]);
    let undirected: Vec<(u32, u32)> = adj
        .rank_edges()
        .iter()
        .map(|&(a, b, _)| (a.min(b), a.max(b)))
        .collect();
    assert_eq!(undirected, vec![(2, 3), (0, 1), (2, 3), (0, 1)]);
}

#[test]
fn set_rank_same_does_not_depend_on_order() {
    let build = || {
        let mut g: Gansner<u32> = Gansner::new();
        let n: Vec<Node> = (0..6).map(|i| g.add_node(i, SZ)).collect();
        g.set_rank_same(n[0], n[1]);
        g.set_rank_min(n[2]);
        (g, n)
    };
    let pairs = [(0usize, 3usize), (2, 4), (3, 5), (0, 1), (4, 5)];
    for &(a, b) in pairs.iter() {
        let (mut g1, n1) = build();
        let (mut g2, n2) = build();
        g1.set_rank_same(n1[a], n1[b]);
        g2.set_rank_same(n2[b], n2[a]);
        for i in 0..6 {
            assert_eq!(g1.node_rank(n1[i]), g2.node_rank(n2[i]));
        }
        assert_eq!(g1.next_new_rank(), g2.next_new_rank());
    }
}

#[test]
fn next_new_rank_counts_new_sets() {
    let mut g: Gansner<u32> = Gansner::new();
    let n: Vec<Node> = (0..4).map(|i| g.add_node(i, SZ)).collect();
    assert_eq!(g.next_new_rank(), 1);
    g.set_rank_same(n[0], n[1]);
    assert_eq!(g.next_new_rank(), 2);
    g.set_rank_same(n[1], n[2]);
    assert_eq!(g.next_new_rank(), 2);
    g.set_rank_same(n[3], n[3]);
    assert_eq!(g.next_new_rank(), 3);
    assert_eq!(g.node_rank(n[3]), Some(2));
}
