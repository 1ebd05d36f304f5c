use rust_graph_lib::algorithms::{Algorithm, Dfs, Dijkstra};
use rust_graph_lib::graph::Graph;
use rust_graph_lib::impls::adj_list::{AdjListGraph, Index};

fn slice_equal(s1: &[Index], s2: &[Index]) -> bool {
    if s1.len() != s2.len() {
        return false;
    }

    s1.iter().zip(s2.iter()).all(|(a, b)| a == b)
}

fn dfs(g: &AdjListGraph, from: Index, to: Index) -> Option<Vec<Index>> {
    Dfs::new(g).run(from, to)
}

fn dijkstra(g: &AdjListGraph, from: Index, to: Index) -> Option<Vec<Index>> {
    Dijkstra::new(g).run(from, to)
}

fn is_simple_path_of(g: &AdjListGraph, p: &[Index], from: Index, to: Index) -> bool {
    if p.len() < 2 || p[0] != from || p[p.len() - 1] != to {
        return false;
    }
    for i in 0..p.len() - 1 {
        if !g.has_edge(p[i], p[i + 1]) {
            return false;
        }
    }
    for i in 0..p.len() {
        for j in 0..i {
            if p[i] == p[j] {
                return false;
            }
        }
    }
    true
}

#[test]
fn dfs_works_with_path_present() {
    let mut g = AdjListGraph::new();
    let id1 = g.add_node();
    let id2 = g.add_node();
    let id3 = g.add_node();
    let id4 = g.add_node();
    let id5 = g.add_node();

    g.add_edge(id1, id2);
    g.add_edge(id2, id3);
    g.add_edge(id3, id4);
    g.add_edge(id4, id5);

    let p = dfs(&g, id1, id5);
    assert!(p.is_some());
    assert!(slice_equal(&p.unwrap(), &[id1, id2, id3, id4, id5]));
}

#[test]
fn dfs_works_with_path_not_present() {
    let mut g = AdjListGraph::new();
    let id1 = g.add_node();
    let id2 = g.add_node();
    let id3 = g.add_node();
    let id4 = g.add_node();
    let id5 = g.add_node();

    g.add_edge(id1, id2);
    g.add_edge(id3, id4);
    g.add_edge(id4, id5);

    let p = dfs(&g, id1, id5);
    assert!(p.is_none());
}

#[test]
fn dijkstra_works_with_path_present() {
    let mut g = AdjListGraph::new();
    let id1 = g.add_node();
    let id2 = g.add_node();
    let id3 = g.add_node();
    let id4 = g.add_node();
    let id5 = g.add_node();

    g.add_edge(id1, id2);
    g.add_edge(id2, id3);
    g.add_edge(id3, id4);
    g.add_edge(id4, id5);

    let p = dijkstra(&g, id1, id5);
    assert!(p.is_some());
    assert!(slice_equal(&p.unwrap(), &[id1, id2, id3, id4, id5]));
}

#[test]
fn dijkstra_gets_shortest_path() {
    let mut g = AdjListGraph::new();
    let id1 = g.add_node();
    let id2 = g.add_node();
    let id3 = g.add_node();
    let id4 = g.add_node();
    let id5 = g.add_node();

    g.add_edge(id1, id2);
    g.add_edge(id2, id3);
    g.add_edge(id3, id4);
    g.add_edge(id4, id5);
    g.add_edge(id1, id3);
    g.add_edge(id3, id5);

    let p = dijkstra(&g, id1, id5);
    assert!(p.is_some());
    assert!(slice_equal(&p.unwrap(), &[id1, id3, id5]));
}

#[test]
fn dijkstra_works_with_path_not_present() {
    let mut g = AdjListGraph::new();
    let id1 = g.add_node();
    let id2 = g.add_node();
    let id3 = g.add_node();
    let id4 = g.add_node();
    let id5 = g.add_node();

    g.add_edge(id1, id2);
    g.add_edge(id3, id4);
    g.add_edge(id4, id5);

    let p = dijkstra(&g, id1, id5);
    assert!(p.is_none());
}

#[test]
fn dfs_finds_some_simple_path_among_several() {
    let mut g = AdjListGraph::new();
    let id1 = g.add_node();
    let id2 = g.add_node();
    let id3 = g.add_node();
    let id4 = g.add_node();
    let id5 = g.add_node();

    g.add_edge(id1, id2);
    g.add_edge(id2, id3);
    g.add_edge(id3, id4);
    g.add_edge(id4, id5);
    g.add_edge(id1, id3);
    g.add_edge(id3, id5);
    g.add_edge(id3, id1);

    let p = dfs(&g, id1, id5).unwrap();
    assert!(is_simple_path_of(&g, &p, id1, id5));
    let q = dijkstra(&g, id1, id5).unwrap();
    assert!(is_simple_path_of(&g, &q, id1, id5));
    assert!(q.len() <= p.len());
    assert_eq!(q.len(), 3);
}

#[test]
fn searches_on_a_cycle_end() {
    let mut g = AdjListGraph::new();
    let a = g.add_node();
    let b = g.add_node();
    let c = g.add_node();
    let d = g.add_node();
    g.add_edge(a, b);
    g.add_edge(b, c);
    g.add_edge(c, a);

    assert_eq!(dfs(&g, a, c), Some(vec![a, b, c]));
    assert_eq!(dijkstra(&g, a, c), Some(vec![a, b, c]));
    assert_eq!(dfs(&g, a, d), None);
    assert_eq!(dijkstra(&g, a, d), None);
    assert_eq!(dfs(&g, d, a), None);
    assert_eq!(dijkstra(&g, d, a), None);
}

#[test]
fn a_node_has_no_path_to_itself() {
    let mut g = AdjListGraph::new();
    let a = g.add_node();
    let b = g.add_node();
    g.add_edge(a, b);
    g.add_edge(b, a);
    g.add_edge(a, a);

    assert_eq!(dfs(&g, a, a), None);
    assert_eq!(dijkstra(&g, a, a), None);
}

#[test]
fn unregistered_endpoints_give_no_path() {
    let mut g = AdjListGraph::new();
    let a = g.add_node();
    let b = g.add_node();
    g.add_edge(a, b);
    let stranger = b.next();

    assert_eq!(dfs(&g, stranger, b), None);
    assert_eq!(dfs(&g, a, stranger), None);
    assert_eq!(dijkstra(&g, stranger, b), None);
    assert_eq!(dijkstra(&g, a, stranger), None);
}

#[test]
fn direction_of_edges_matters() {
    let mut g = AdjListGraph::new();
    let a = g.add_node();
    let b = g.add_node();
    g.add_edge(a, b);

    assert_eq!(dfs(&g, a, b), Some(vec![a, b]));
    assert_eq!(dijkstra(&g, a, b), Some(vec![a, b]));
    assert_eq!(dfs(&g, b, a), None);
    assert_eq!(dijkstra(&g, b, a), None);
}
