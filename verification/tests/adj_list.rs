use std::collections::HashSet;

use rust_graph_lib::graph::Graph;
use rust_graph_lib::impls::adj_list::AdjListGraph;

#[test]
fn adj_list_test_add_node() {
    let mut g = AdjListGraph::new();
    assert_eq!(g.node_count(), 0);
    let id1 = g.add_node();
    assert_eq!(g.node_count(), 1);
    let id2 = g.add_node();
    assert_eq!(g.node_count(), 2);
    assert_ne!(id1, id2);
}

#[test]
fn adj_list_test_remove_node_no_edges() {
    let mut g = AdjListGraph::new();
    let id1 = g.add_node();
    let id2 = g.add_node();
    let id3 = g.add_node();
    assert_eq!(g.node_count(), 3);
    g.remove_node(id1);
    assert_eq!(g.node_count(), 2);
    g.remove_node(id2);
    assert_eq!(g.node_count(), 1);
    g.remove_node(id3);
    assert_eq!(g.node_count(), 0);
}

#[test]
fn adj_list_test_remove_node_with_edges() {
    let mut g = AdjListGraph::new();

    let id1 = g.add_node();
    let id2 = g.add_node();
    let id3 = g.add_node();

    g.add_edge(id1, id2);
    g.add_edge(id2, id3);
    g.add_edge(id3, id1);
    assert_eq!(g.node_count(), 3);
    assert_eq!(g.edge_count(), 3);
    g.remove_node(id1);
    assert_eq!(g.node_count(), 2);
    assert_eq!(g.edge_count(), 1);

    g.remove_node(id2);
    assert_eq!(g.node_count(), 1);
    assert_eq!(g.edge_count(), 0);

    g.remove_node(id3);
    assert_eq!(g.node_count(), 0);
    assert_eq!(g.edge_count(), 0);
}

#[test]
fn adj_list_handles_count_up_from_one() {
    let mut g = AdjListGraph::new();
    let id1 = g.add_node();
    let id2 = g.add_node();
    assert_eq!(id1.value(), 1);
    assert_eq!(id2.value(), 2);
    assert_eq!(id1.next(), id2);
    g.remove_node(id2);
    let id3 = g.add_node();
    assert_eq!(id3.value(), 3);
}

#[test]
fn adj_list_add_edge_is_idempotent() {
    let mut g = AdjListGraph::new();
    let a = g.add_node();
    let b = g.add_node();
    assert!(!g.has_edge(a, b));
    g.add_edge(a, b);
    assert!(g.has_edge(a, b));
    assert!(!g.has_edge(b, a));
    assert_eq!(g.edge_count(), 1);
    g.add_edge(a, b);
    assert_eq!(g.edge_count(), 1);
    g.remove_edge(a, b);
    assert!(!g.has_edge(a, b));
    assert_eq!(g.edge_count(), 0);
    g.remove_edge(a, b);
    assert_eq!(g.edge_count(), 0);
    assert_eq!(g.node_count(), 2);
}

#[test]
fn adj_list_add_edge_registers_both_ends() {
    let mut g = AdjListGraph::new();
    let a = g.add_node();
    let b = a.next();
    let c = b.next();
    g.add_edge(b, c);
    assert_eq!(g.node_count(), 3);
    assert!(g.has_node(b));
    assert!(g.has_node(c));
    let d = g.add_node();
    assert_eq!(d.value(), 4);
    assert_eq!(g.node_count(), 4);
}

#[test]
fn adj_list_self_loop_counts_once() {
    let mut g = AdjListGraph::new();
    let a = g.add_node();
    let b = g.add_node();
    g.add_edge(a, a);
    g.add_edge(a, b);
    g.add_edge(b, a);
    assert_eq!(g.edge_count(), 3);
    g.remove_node(a);
    assert_eq!(g.edge_count(), 0);
    assert_eq!(g.node_count(), 1);
}

#[test]
fn adj_list_iteration_lists_everything_once() {
    let mut g = AdjListGraph::new();
    let a = g.add_node();
    let b = g.add_node();
    let c = g.add_node();
    g.add_edge(a, b);
    g.add_edge(a, c);
    g.add_edge(c, a);

    let nodes = g.iter_nodes();
    assert_eq!(nodes.len(), 3);
    assert_eq!(nodes.into_iter().collect::<HashSet<_>>(), HashSet::from_iter(vec![a, b, c]));

    let adj = g.iter_adj(a).unwrap();
    assert_eq!(adj.len(), 2);
    assert_eq!(adj.into_iter().collect::<HashSet<_>>(), HashSet::from_iter(vec![b, c]));
    assert_eq!(g.iter_adj(b), Some(vec![]));
    assert_eq!(g.iter_adj(c.next()), None);

    let edges = g.iter_edges();
    assert_eq!(edges.len(), 3);
    assert_eq!(
        edges.into_iter().collect::<HashSet<_>>(),
        HashSet::from_iter(vec![(a, b), (a, c), (c, a)])
    );
}

#[test]
fn adj_list_remove_unknown_node_changes_nothing() {
    let mut g = AdjListGraph::default();
    let a = g.add_node();
    let b = g.add_node();
    g.add_edge(a, b);
    g.remove_node(b.next());
    assert_eq!(g.node_count(), 2);
    assert_eq!(g.edge_count(), 1);
}
