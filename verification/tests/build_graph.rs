use std::collections::HashSet;

use rust_graph_lib::impls::adj_matrix::AdjMatrixGraph;
use rust_graph_lib::keyed::graph::Graph;

#[test]
fn test_graph() {
    let mut g = AdjMatrixGraph::new();
    g.add_node(1);
    g.add_node(2);
    g.add_node(3);
    g.add_node(4);
    g.add_node(5);
    g.add_edge(1, 2);
    g.add_edge(1, 3);
    g.add_edge(2, 4);
    g.add_edge(4, 5);

    assert_eq!(g.node_count(), 5);
    assert_eq!(g.edge_count(), 4);

    assert_eq!(
        g.iter_nodes().into_iter().copied().collect::<HashSet<_>>(),
        HashSet::from_iter(vec![1, 2, 3, 4, 5])
    );
    assert_eq!(
        g.iter_edges().into_iter().map(|t| (*t.0, *t.1)).collect::<HashSet<_>>(),
        HashSet::from_iter(vec![(1, 2), (1, 3), (2, 4), (4, 5)])
    );
}

#[derive(Hash, PartialEq, Eq, Debug, Clone, Copy)]
struct S(u32);

#[test]
fn test_struct_graph() {
    let mut g = AdjMatrixGraph::new();
    g.add_node(S(1));
    g.add_node(S(2));
    g.add_node(S(3));
    g.add_node(S(4));
    g.add_node(S(5));
    g.add_edge(S(1), S(2));
    g.add_edge(S(1), S(3));
    g.add_edge(S(2), S(4));
    g.add_edge(S(4), S(5));

    assert_eq!(g.node_count(), 5);
    assert_eq!(g.edge_count(), 4);

    assert_eq!(
        g.iter_nodes().into_iter().cloned().collect::<HashSet<_>>(),
        HashSet::from_iter(vec![1, 2, 3, 4, 5].into_iter().map(|n| S(n)))
    );
    assert_eq!(
        g.iter_edges().into_iter().map(|t| (*t.0, *t.1)).collect::<HashSet<_>>(),
        HashSet::from_iter(
            vec![(1, 2), (1, 3), (2, 4), (4, 5)]
                .into_iter()
                .map(|(f, t)| (S(f), S(t)))
        )
    );
}
