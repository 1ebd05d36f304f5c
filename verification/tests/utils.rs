use rust_graph_lib::impls::inc_matrix::IncMatrixGraph;
use rust_graph_lib::impls::adj_matrix::AdjMatrixGraph;
use rust_graph_lib::keyed::graph::Graph;
use rust_graph_lib::keyed::utils::{dfs, dijkstra};

fn parse(s: &str) -> u32 {
    let res = s.parse();
    res.ok().unwrap()
}

fn fill(g: &mut impl Graph<u32>, n: u32, s: &str) {
    for i in 1..=n {
        g.add_node(i);
    }

    for x in s.split('|') {
        let p = x.split(',').collect::<Vec<_>>();
        g.add_edge(parse(p[0]), parse(p[1]));
    }
}

fn build_graph(n: u32, s: &str) -> AdjMatrixGraph<u32> {
    let mut g = AdjMatrixGraph::new();
    fill(&mut g, n, s);
    g
}

fn slice_equal(s1: &[&u32], s2: &[u32]) -> bool {
    if s1.len() != s2.len() {
        return false;
    }

    s1.iter().zip(s2.iter()).all(|(a, b)| **a == *b)
}

fn is_simple_path_of(g: &impl Graph<u32>, p: &[&u32], from: u32, to: u32) -> bool {
    if p.len() < 2 || *p[0] != from || *p[p.len() - 1] != to {
        return false;
    }
    for i in 0..p.len() - 1 {
        if !g.has_edge(p[i], p[i + 1]) {
            return false;
        }
    }
    for i in 0..p.len() {
        for j in 0..i {
            if p[i] == p[j] {
                return false;
            }
        }
    }
    true
}

#[test]
fn utils_works_with_path_present() {
    let g = build_graph(5, "1,2|2,3|3,4|4,5");
    let p = dijkstra(&g, &1, &5);
    assert!(p.is_some());
    assert!(slice_equal(&p.unwrap(), &[1, 2, 3, 4, 5]));
}

#[test]
fn utils_gets_shortest_path() {
    let g = build_graph(5, "1,2|2,3|3,4|4,5|1,3|3,5");
    let p = dijkstra(&g, &1, &5);
    assert!(p.is_some());
    assert!(slice_equal(&p.unwrap(), &[1, 3, 5]));
}

#[test]
fn utils_works_with_path_not_present() {
    let g = build_graph(5, "1,2|3,4|4,5");
    let p = dijkstra(&g, &1, &5);
    assert!(p.is_none());
}

#[test]
fn works_with_nonexistant_src() {
    let g = build_graph(5, "1,2|3,4|4,5");
    let p = dijkstra(&g, &0, &5);
    assert!(p.is_none());
}

#[test]
fn works_with_nonexistant_dst() {
    let g = build_graph(5, "1,2|3,4|4,5");
    let p = dijkstra(&g, &1, &6);
    assert!(p.is_none());
}

#[test]
fn dfs_on_a_chain_walks_the_chain() {
    let g = build_graph(5, "1,2|2,3|3,4|4,5");
    let p = dfs(&g, &1, &5).unwrap();
    assert_eq!(p.len(), 5);
    assert!(slice_equal(&p, &[1, 2, 3, 4, 5]));
    assert!(is_simple_path_of(&g, &p, 1, 5));
}

#[test]
fn dfs_with_shortcuts_finds_a_simple_path() {
    let g = build_graph(5, "1,2|2,3|3,4|4,5|1,3|3,5");
    let p = dfs(&g, &1, &5).unwrap();
    assert!(is_simple_path_of(&g, &p, 1, 5));
    let q = dijkstra(&g, &1, &5).unwrap();
    assert!(q.len() <= p.len());
}

#[test]
fn dfs_without_connection_finds_nothing() {
    let g = build_graph(5, "1,2|3,4|4,5");
    assert!(dfs(&g, &1, &5).is_none());
    assert!(dfs(&g, &3, &5).is_some());
}

#[test]
fn dfs_with_unregistered_endpoint_finds_nothing() {
    let g = build_graph(5, "1,2|3,4|4,5");
    assert!(dfs(&g, &0, &5).is_none());
    assert!(dfs(&g, &1, &6).is_none());
    assert!(dfs(&g, &0, &6).is_none());
    assert!(dijkstra(&g, &0, &6).is_none());
}

#[test]
fn same_endpoints_give_no_path() {
    let g = build_graph(3, "1,2|2,1|2,2");
    assert!(dfs(&g, &1, &1).is_none());
    assert!(dijkstra(&g, &1, &1).is_none());
    assert!(dfs(&g, &2, &2).is_none());
    assert!(dijkstra(&g, &2, &2).is_none());
}

#[test]
fn searches_agree_across_backends() {
    let wiring = "1,2|2,3|3,4|4,5|1,3|3,5|5,1|2,6";
    let a = build_graph(7, wiring);
    let mut b = IncMatrixGraph::new();
    fill(&mut b, 7, wiring);
    let mut c = rust_graph_lib::keyed::graph::AdjMatrixGraph::new();
    fill(&mut c, 7, wiring);

    for from in 0..=8u32 {
        for to in 0..=8u32 {
            let pa = dijkstra(&a, &from, &to);
            let pb = dijkstra(&b, &from, &to);
            let pc = dijkstra(&c, &from, &to);
            assert_eq!(pa.as_ref().map(|p| p.len()), pb.as_ref().map(|p| p.len()));
            assert_eq!(pa.as_ref().map(|p| p.len()), pc.as_ref().map(|p| p.len()));
            let da = dfs(&a, &from, &to);
            let db = dfs(&b, &from, &to);
            let dc = dfs(&c, &from, &to);
            assert_eq!(pa.is_some(), da.is_some());
            assert_eq!(pa.is_some(), db.is_some());
            assert_eq!(pa.is_some(), dc.is_some());
            if let (Some(p), Some(d)) = (pa, da) {
                assert!(is_simple_path_of(&a, &p, from, to));
                assert!(is_simple_path_of(&a, &d, from, to));
                assert!(p.len() <= d.len());
            }
        }
    }
}

#[test]
fn shortest_path_lengths_are_exact() {
    let g = build_graph(6, "1,2|2,3|3,4|4,5|5,6|1,4");
    assert_eq!(dijkstra(&g, &1, &6).map(|p| p.len()), Some(4));
    assert_eq!(dijkstra(&g, &1, &3).map(|p| p.len()), Some(3));
    assert_eq!(dijkstra(&g, &2, &6).map(|p| p.len()), Some(5));
    assert_eq!(dijkstra(&g, &6, &1), None);
}

/// Edge counts of shortest walks from `from`, by plain breadth-first search.
fn breadth_first(n: usize, edges: &[(u32, u32)], from: u32) -> Vec<Option<usize>> {
    let mut dist: Vec<Option<usize>> = vec![None; n + 1];
    dist[from as usize] = Some(0);
    let mut frontier = vec![from];
    while !frontier.is_empty() {
        let mut next = Vec::new();
        for u in frontier {
            for &(a, b) in edges {
                if a == u && dist[b as usize].is_none() {
                    dist[b as usize] = Some(dist[u as usize].unwrap() + 1);
                    next.push(b);
                }
            }
        }
        frontier = next;
    }
    dist
}

#[test]
fn dijkstra_matches_breadth_first_distances() {
    let n = 9usize;
    let mut seed: u64 = 0x2545_f491_4f6c_dd1d;
    for _round in 0..40 {
        let mut edges: Vec<(u32, u32)> = Vec::new();
        let mut g = AdjMatrixGraph::new();
        let mut m = IncMatrixGraph::new();
        for i in 1..=n as u32 {
            g.add_node(i);
            m.add_node(i);
        }
        for _ in 0..14 {
            seed = seed.wrapping_mul(6364136223846793005).wrapping_add(1442695040888963407);
            let a = ((seed >> 33) % n as u64) as u32 + 1;
            seed = seed.wrapping_mul(6364136223846793005).wrapping_add(1442695040888963407);
            let b = ((seed >> 33) % n as u64) as u32 + 1;
            if !edges.contains(&(a, b)) {
                edges.push((a, b));
            }
            g.add_edge(a, b);
            m.add_edge(a, b);
        }
        assert_eq!(g.edge_count(), edges.len());
        assert_eq!(m.edge_count(), edges.len());
        for from in 1..=n as u32 {
            let dist = breadth_first(n, &edges, from);
            for to in 1..=n as u32 {
                let expected = if from == to { None } else { dist[to as usize].map(|d| d + 1) };
                let p = dijkstra(&g, &from, &to);
                assert_eq!(p.as_ref().map(|p| p.len()), expected);
                let q = dijkstra(&m, &from, &to);
                assert_eq!(q.as_ref().map(|q| q.len()), expected);
                let d = dfs(&g, &from, &to);
                assert_eq!(d.is_some(), expected.is_some());
                if let Some(d) = d {
                    assert!(is_simple_path_of(&g, &d, from, to));
                }
                if let Some(p) = p {
                    assert!(is_simple_path_of(&g, &p, from, to));
                }
            }
        }
    }
}
