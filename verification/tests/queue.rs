use rust_graph_lib::algorithms::queue::{MinQueue, NodeWithDist};

fn entry(node: usize, dist: usize) -> NodeWithDist {
    NodeWithDist { node, dist }
}

fn drain(q: &mut MinQueue) -> Vec<(usize, usize)> {
    let mut out = Vec::new();
    while let Some(e) = q.pop() {
        out.push((e.dist, e.node));
    }
    out
}

#[test]
fn empty_queue_gives_nothing() {
    let mut q = MinQueue::new();
    assert_eq!(q.len(), 0);
    assert!(q.pop().is_none());
    assert_eq!(q.len(), 0);
}

#[test]
fn entries_leave_by_ascending_distance() {
    let mut q = MinQueue::new();
    for (node, dist) in [(0, 9), (1, 3), (2, 7), (3, 1), (4, 8), (5, 2), (6, 6), (7, 0)] {
        q.push(entry(node, dist));
    }
    assert_eq!(q.len(), 8);
    assert_eq!(
        drain(&mut q),
        vec![(0, 7), (1, 3), (2, 5), (3, 1), (6, 6), (7, 2), (8, 4), (9, 0)]
    );
    assert_eq!(q.len(), 0);
}

#[test]
fn equal_distances_leave_larger_node_first() {
    let mut q = MinQueue::new();
    q.push(entry(1, 5));
    q.push(entry(3, 5));
    q.push(entry(2, 5));
    q.push(entry(9, usize::MAX));
    q.push(entry(0, 4));
    assert_eq!(drain(&mut q), vec![(4, 0), (5, 3), (5, 2), (5, 1), (usize::MAX, 9)]);
}

#[test]
fn repeated_entries_are_kept_apart() {
    let mut q = MinQueue::new();
    q.push(entry(1, 2));
    q.push(entry(1, 2));
    q.push(entry(1, 1));
    assert_eq!(q.len(), 3);
    assert_eq!(drain(&mut q), vec![(1, 1), (2, 1), (2, 1)]);
}

#[test]
fn pushes_and_pops_may_alternate() {
    let mut q = MinQueue::new();
    q.push(entry(0, 4));
    q.push(entry(1, 2));
    assert_eq!(q.pop().map(|e| e.node), Some(1));
    q.push(entry(2, 1));
    q.push(entry(3, 3));
    assert_eq!(q.pop().map(|e| e.node), Some(2));
    assert_eq!(q.pop().map(|e| e.node), Some(3));
    assert_eq!(q.pop().map(|e| e.node), Some(0));
    assert!(q.pop().is_none());
}

#[test]
fn precedence_is_what_leaves_before_tells() {
    assert!(entry(0, 1).leaves_before(&entry(5, 2)));
    assert!(!entry(5, 2).leaves_before(&entry(0, 1)));
    assert!(entry(5, 2).leaves_before(&entry(4, 2)));
    assert!(!entry(4, 2).leaves_before(&entry(5, 2)));
    assert!(entry(4, 2).leaves_before(&entry(4, 2)));
}
