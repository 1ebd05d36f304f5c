use std::collections::HashSet;

use rust_graph_lib::keyed::graph::{AdjMatrixGraph, Graph};

#[test]
fn graph_test_add_node() {
    let mut g = AdjMatrixGraph::new();
    assert_eq!(g.node_count(), 0);
    g.add_node(1);
    assert_eq!(g.node_count(), 1);
    assert!(g.has_node(&1));
}

#[test]
fn graph_test_remove_node_no_edges() {
    let mut g = AdjMatrixGraph::new();
    g.add_node(1);
    g.add_node(2);
    g.add_node(3);
    assert_eq!(g.node_count(), 3);
    g.remove_node(&1);
    assert_eq!(g.node_count(), 2);
    g.remove_node(&2);
    assert_eq!(g.node_count(), 1);
    g.remove_node(&3);
    assert_eq!(g.node_count(), 0);
}

#[test]
fn graph_test_remove_node_with_edges() {
    let mut g = AdjMatrixGraph::new();
    g.add_edge(1, 2);
    g.add_edge(2, 3);
    g.add_edge(3, 1);
    assert_eq!(g.node_count(), 3);
    assert_eq!(g.edge_count(), 3);

    g.remove_node(&1);
    assert_eq!(g.node_count(), 2);
    assert_eq!(g.edge_count(), 1);

    g.remove_node(&2);
    assert_eq!(g.node_count(), 1);
    assert_eq!(g.edge_count(), 0);

    g.remove_node(&3);
    assert_eq!(g.node_count(), 0);
    assert_eq!(g.edge_count(), 0);
}

#[test]
fn graph_add_node_twice_registers_once() {
    let mut g = AdjMatrixGraph::new();
    g.add_node(7);
    g.add_node(7);
    assert_eq!(g.node_count(), 1);
    assert!(g.has_node(&7));
    assert!(!g.has_node(&8));
}

#[test]
fn graph_add_edge_is_idempotent() {
    let mut g = AdjMatrixGraph::new();
    assert!(!g.has_edge(&1, &2));
    g.add_edge(1, 2);
    assert!(g.has_edge(&1, &2));
    assert!(!g.has_edge(&2, &1));
    assert_eq!(g.node_count(), 2);
    assert_eq!(g.edge_count(), 1);
    g.add_edge(1, 2);
    assert_eq!(g.node_count(), 2);
    assert_eq!(g.edge_count(), 1);
    g.remove_edge(&1, &2);
    assert!(!g.has_edge(&1, &2));
    assert_eq!(g.edge_count(), 0);
    g.remove_edge(&1, &2);
    assert_eq!(g.edge_count(), 0);
    g.remove_edge(&5, &6);
    assert_eq!(g.edge_count(), 0);
    assert_eq!(g.node_count(), 2);
}

#[test]
fn graph_remove_node_strips_incident_edges() {
    let mut g = AdjMatrixGraph::new();
    g.add_edge(1, 1);
    g.add_edge(1, 2);
    g.add_edge(2, 1);
    g.add_edge(2, 3);
    g.add_edge(3, 4);
    assert_eq!(g.node_count(), 4);
    assert_eq!(g.edge_count(), 5);
    g.remove_node(&9);
    assert_eq!(g.node_count(), 4);
    assert_eq!(g.edge_count(), 5);
    g.remove_node(&1);
    assert_eq!(g.node_count(), 3);
    assert_eq!(g.edge_count(), 2);
    assert!(!g.has_node(&1));
    assert!(!g.has_edge(&1, &2));
    assert!(!g.has_edge(&2, &1));
    assert!(g.has_edge(&2, &3));
    assert!(g.has_edge(&3, &4));
}

#[test]
fn graph_edges_survive_renumbering() {
    let mut g = AdjMatrixGraph::new();
    g.add_edge(10, 20);
    g.add_edge(20, 30);
    g.add_edge(30, 40);
    g.add_edge(40, 10);
    g.remove_node(&20);
    assert!(g.has_edge(&30, &40));
    assert!(g.has_edge(&40, &10));
    assert!(!g.has_edge(&10, &30));
    g.add_edge(10, 30);
    g.add_node(20);
    assert_eq!(g.node_count(), 4);
    assert_eq!(g.edge_count(), 3);
    assert!(g.has_edge(&10, &30));
    assert!(!g.has_edge(&10, &20));
    assert_eq!(g.iter_adj(&20).map(|v| v.len()), Some(0));
}

#[test]
fn graph_iteration_lists_everything_once() {
    let mut g = AdjMatrixGraph::new();
    g.add_node(5);
    g.add_edge(1, 2);
    g.add_edge(1, 3);
    g.add_edge(3, 1);

    let nodes = g.iter_nodes();
    assert_eq!(nodes.len(), 4);
    assert_eq!(
        nodes.into_iter().copied().collect::<HashSet<_>>(),
        HashSet::from_iter(vec![1, 2, 3, 5])
    );

    let adj = g.iter_adj(&1).unwrap();
    assert_eq!(adj.len(), 2);
    assert_eq!(adj.into_iter().copied().collect::<HashSet<_>>(), HashSet::from_iter(vec![2, 3]));
    assert_eq!(g.iter_adj(&5), Some(vec![]));
    assert_eq!(g.iter_adj(&4), None);

    let edges = g.iter_edges();
    assert_eq!(edges.len(), 3);
    assert_eq!(
        edges.into_iter().map(|t| (*t.0, *t.1)).collect::<HashSet<_>>(),
        HashSet::from_iter(vec![(1, 2), (1, 3), (3, 1)])
    );
}
