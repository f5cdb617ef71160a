use util::capacity::Capacity;
use util::graph::Graph;

#[test]
fn max_flow_twice_gives_zero() {
    let mut g = Graph::new(4);
    g.add_edge(0, 1, Capacity::Finite(2));
    g.add_edge(0, 2, Capacity::Finite(3));
    g.add_edge(1, 3, Capacity::Finite(4));
    g.add_edge(2, 3, Capacity::Finite(1));
    assert_eq!(Capacity::Finite(3), g.max_flow(0, 3));
    let before: Vec<Capacity> = (0..8).map(|i| g.edge(i).capacity).collect();
    assert_eq!(Capacity::Finite(0), g.max_flow(0, 3));
    let after: Vec<Capacity> = (0..8).map(|i| g.edge(i).capacity).collect();
    assert_eq!(before, after);
}

#[test]
fn reachable_any_both_ways() {
    let mut g = Graph::new(3);
    g.add_edge(0, 1, Capacity::Finite(0));
    let from0 = g.find_reachable_any(0);
    let from1 = g.find_reachable_any(1);
    assert!(from0[1] && from1[0]);
    assert!(!from0[2] && !from1[2]);
}

#[test]
fn subflow_beside_large_edges() {
    let big: u64 = 1 << 63;
    let mut g = Graph::new(4);
    g.add_edge(0, 1, Capacity::Finite(big));
    g.add_edge(2, 3, Capacity::Finite(big));
    assert_eq!(Capacity::Finite(big), g.mark_subflow(0, 1));
    assert_eq!(Capacity::Finite(big), g.edge(0).capacity);
    assert_eq!(Capacity::Finite(0), g.edge(1).capacity);
    assert_eq!(Capacity::Finite(big), g.edge(3).capacity);
}

#[test]
fn max_flow_through_unbounded_edge() {
    let mut g = Graph::new(3);
    g.add_edge(0, 1, Capacity::Infinity);
    g.add_edge(1, 2, Capacity::Finite(u64::MAX));
    assert_eq!(Capacity::Finite(u64::MAX), g.max_flow(0, 2));
    assert_eq!(Capacity::Finite(u64::MAX), g.edge(0).capacity);
    assert_eq!(Capacity::Infinity, g.edge(1).capacity);
}
