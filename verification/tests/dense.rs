use rust_graph_lib::algorithms::dfs::inner_dfs;
use rust_graph_lib::algorithms::dijkstra::shortest_path;
use rust_graph_lib::algorithms::numbering::{index_of, number, read_back};
use rust_graph_lib::graph::Graph;
use rust_graph_lib::impls::adj_list::AdjListGraph;

#[test]
fn dense_chain() {
    let adj = vec![vec![1], vec![2], vec![3], vec![4], vec![]];
    assert_eq!(shortest_path(&adj, 0, 4), Some(vec![0, 1, 2, 3, 4]));
    assert_eq!(inner_dfs(&adj, 0, 4), Some(vec![0, 1, 2, 3, 4]));
    assert_eq!(shortest_path(&adj, 4, 0), None);
    assert_eq!(inner_dfs(&adj, 4, 0), None);
}

#[test]
fn dense_shortcut() {
    let adj = vec![vec![1, 2], vec![2], vec![3, 4], vec![4], vec![]];
    assert_eq!(shortest_path(&adj, 0, 4), Some(vec![0, 2, 4]));
    assert_eq!(inner_dfs(&adj, 0, 4), Some(vec![0, 1, 2, 3, 4]));
}

#[test]
fn dense_first_found_follows_list_order() {
    let adj = vec![vec![2, 1], vec![3], vec![3], vec![]];
    assert_eq!(inner_dfs(&adj, 0, 3), Some(vec![0, 2, 3]));
    let adj = vec![vec![1, 2], vec![3], vec![3], vec![]];
    assert_eq!(inner_dfs(&adj, 0, 3), Some(vec![0, 1, 3]));
}

#[test]
fn dense_backtracks_out_of_dead_ends() {
    let adj = vec![vec![1, 3], vec![2], vec![1], vec![4], vec![]];
    assert_eq!(inner_dfs(&adj, 0, 4), Some(vec![0, 3, 4]));
    assert_eq!(shortest_path(&adj, 0, 4), Some(vec![0, 3, 4]));
}

#[test]
fn dense_same_endpoints() {
    let adj = vec![vec![0, 1], vec![0]];
    assert_eq!(shortest_path(&adj, 0, 0), None);
    assert_eq!(inner_dfs(&adj, 0, 0), None);
    assert_eq!(shortest_path(&adj, 1, 1), None);
    assert_eq!(inner_dfs(&adj, 1, 1), None);
}

#[test]
fn dense_single_node() {
    let adj: Vec<Vec<usize>> = vec![vec![]];
    assert_eq!(shortest_path(&adj, 0, 0), None);
    assert_eq!(inner_dfs(&adj, 0, 0), None);
}

#[test]
fn dense_repeated_neighbours_do_no_harm() {
    let adj = vec![vec![1, 1, 1], vec![2, 0, 2], vec![]];
    assert_eq!(shortest_path(&adj, 0, 2), Some(vec![0, 1, 2]));
    assert_eq!(inner_dfs(&adj, 0, 2), Some(vec![0, 1, 2]));
}

#[test]
fn dense_layers_are_counted_exactly() {
    // A ladder: 0 -> {1, 2} -> {3, 4} -> 5, and a long way round 0 -> 6 -> 7 -> 8 -> 5.
    let adj = vec![
        vec![6, 1, 2],
        vec![3],
        vec![4],
        vec![5],
        vec![5],
        vec![],
        vec![7],
        vec![8],
        vec![5],
    ];
    let p = shortest_path(&adj, 0, 5).unwrap();
    assert_eq!(p.len(), 4);
    assert_eq!(p[0], 0);
    assert_eq!(p[3], 5);
    let d = inner_dfs(&adj, 0, 5).unwrap();
    assert_eq!(d, vec![0, 6, 7, 8, 5]);
}

#[test]
fn numbering_reads_a_backend() {
    let mut g = AdjListGraph::new();
    let a = g.add_node();
    let b = g.add_node();
    let c = g.add_node();
    g.add_edge(a, b);
    g.add_edge(b, c);
    g.add_edge(c, a);

    let (names, adj) = number(&g);
    assert_eq!(names.len(), 3);
    assert_eq!(adj.len(), 3);
    let ia = index_of(&names, a).unwrap();
    let ib = index_of(&names, b).unwrap();
    let ic = index_of(&names, c).unwrap();
    assert_eq!(adj[ia], vec![ib]);
    assert_eq!(adj[ib], vec![ic]);
    assert_eq!(adj[ic], vec![ia]);
    assert_eq!(index_of(&names, c.next()), None);
    assert_eq!(read_back(&names, &vec![ic, ia, ib]), vec![c, a, b]);
}
