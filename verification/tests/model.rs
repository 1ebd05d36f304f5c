use std::collections::HashSet;

use rust_graph_lib::graph::Graph as HandleGraph;
use rust_graph_lib::impls::adj_list::{AdjListGraph, Index};
use rust_graph_lib::impls::adj_matrix::AdjMatrixGraph;
use rust_graph_lib::impls::inc_matrix::IncMatrixGraph;
use rust_graph_lib::keyed::graph::{AdjMatrixGraph as ArenaGraph, Graph};

struct Model {
    nodes: HashSet<u32>,
    edges: HashSet<(u32, u32)>,
}

impl Model {
    fn new() -> Self {
        Model { nodes: HashSet::new(), edges: HashSet::new() }
    }

    fn add_node(&mut self, n: u32) {
        self.nodes.insert(n);
    }

    fn add_edge(&mut self, f: u32, t: u32) {
        self.nodes.insert(f);
        self.nodes.insert(t);
        self.edges.insert((f, t));
    }

    fn remove_node(&mut self, n: u32) {
        self.nodes.remove(&n);
        self.edges.retain(|e| e.0 != n && e.1 != n);
    }

    fn remove_edge(&mut self, f: u32, t: u32) {
        self.edges.remove(&(f, t));
    }
}

fn next(seed: &mut u64, bound: u64) -> u32 {
    *seed = seed.wrapping_mul(6364136223846793005).wrapping_add(1442695040888963407);
    ((*seed >> 33) % bound) as u32
}

fn agrees(g: &impl Graph<u32>, model: &Model) {
    assert_eq!(g.node_count(), model.nodes.len());
    assert_eq!(g.edge_count(), model.edges.len());
    let nodes = g.iter_nodes();
    assert_eq!(nodes.len(), model.nodes.len());
    assert_eq!(nodes.into_iter().copied().collect::<HashSet<_>>(), model.nodes);
    let edges = g.iter_edges();
    assert_eq!(edges.len(), model.edges.len());
    assert_eq!(edges.into_iter().map(|e| (*e.0, *e.1)).collect::<HashSet<_>>(), model.edges);
    for n in 0..8u32 {
        assert_eq!(g.has_node(&n), model.nodes.contains(&n));
        let adj = g.iter_adj(&n);
        assert_eq!(adj.is_some(), model.nodes.contains(&n));
        if let Some(adj) = adj {
            let expected: HashSet<u32> =
                model.edges.iter().filter(|e| e.0 == n).map(|e| e.1).collect();
            assert_eq!(adj.len(), expected.len());
            assert_eq!(adj.into_iter().copied().collect::<HashSet<_>>(), expected);
        }
        for t in 0..8u32 {
            assert_eq!(g.has_edge(&n, &t), model.edges.contains(&(n, t)));
        }
    }
}

fn exercise(g: &mut impl Graph<u32>, mut seed: u64) {
    let mut model = Model::new();
    for _ in 0..400 {
        let a = next(&mut seed, 8);
        let b = next(&mut seed, 8);
        match next(&mut seed, 6) {
            0 => {
                g.add_node(a);
                model.add_node(a);
            }
            1 | 2 => {
                g.add_edge(a, b);
                model.add_edge(a, b);
            }
            3 => {
                g.remove_edge(&a, &b);
                model.remove_edge(a, b);
            }
            4 => {
                g.remove_node(&a);
                model.remove_node(a);
            }
            _ => {
                let before = g.edge_count();
                let had = g.has_edge(&a, &b);
                g.add_edge(a, b);
                g.add_edge(a, b);
                model.add_edge(a, b);
                assert!(g.has_edge(&a, &b));
                assert_eq!(g.edge_count(), before + if had { 0 } else { 1 });
            }
        }
        agrees(g, &model);
    }
}

#[test]
fn hash_set_backend_follows_the_model() {
    let mut g = AdjMatrixGraph::new();
    exercise(&mut g, 11);
}

#[test]
fn arena_backend_follows_the_model() {
    let mut g = ArenaGraph::new();
    exercise(&mut g, 12);
}

#[test]
fn matrix_backend_follows_the_model() {
    let mut g = IncMatrixGraph::new();
    exercise(&mut g, 13);
}

#[test]
fn adjacency_list_backend_follows_the_model() {
    let mut g = AdjListGraph::new();
    let mut model = Model::new();
    let mut handles: Vec<Index> = Vec::new();
    for _ in 0..8 {
        let id = g.add_node();
        model.add_node(id.value() as u32);
        handles.push(id);
    }
    let mut seed: u64 = 14;
    for _ in 0..400 {
        let a = handles[next(&mut seed, 8) as usize];
        let b = handles[next(&mut seed, 8) as usize];
        let (x, y) = (a.value() as u32, b.value() as u32);
        match next(&mut seed, 4) {
            0 | 1 => {
                g.add_edge(a, b);
                model.add_edge(x, y);
            }
            2 => {
                g.remove_edge(a, b);
                model.remove_edge(x, y);
            }
            _ => {
                g.remove_node(a);
                model.remove_node(x);
            }
        }
        assert_eq!(g.node_count(), model.nodes.len());
        assert_eq!(g.edge_count(), model.edges.len());
        assert_eq!(
            g.iter_nodes().into_iter().map(|i| i.value() as u32).collect::<HashSet<_>>(),
            model.nodes
        );
        assert_eq!(
            g.iter_edges()
                .into_iter()
                .map(|e| (e.0.value() as u32, e.1.value() as u32))
                .collect::<HashSet<_>>(),
            model.edges
        );
        for f in &handles {
            assert_eq!(g.has_node(*f), model.nodes.contains(&(f.value() as u32)));
            for t in &handles {
                assert_eq!(
                    g.has_edge(*f, *t),
                    model.edges.contains(&(f.value() as u32, t.value() as u32))
                );
            }
        }
    }
}
