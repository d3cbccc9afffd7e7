use flowistry::components::{component_order, SubsetGraph};
use flowistry::constraints::build_edges;
use flowistry::graph::transitive_closure;

fn position(order: &Vec<Vec<usize>>, node: usize) -> usize {
    for (i, comp) in order.iter().enumerate() {
        if comp.contains(&node) {
            return i;
        }
    }
    panic!("node {} is in no component", node);
}

#[test]
fn the_static_region_is_a_subset_of_every_region() {
    let edges = build_edges(4, &vec![(1, 2), (3, 1)]);
    assert_eq!(edges.len(), 4);
    assert_eq!(edges[0], vec![true, true, true, true]);
    assert_eq!(edges[1], vec![false, false, true, false]);
    assert_eq!(edges[2], vec![false, false, false, false]);
    assert_eq!(edges[3], vec![false, true, false, false]);
}

#[test]
fn facts_outside_the_graph_are_passed_over() {
    let edges = build_edges(2, &vec![(1, 5), (7, 0), (1, 1)]);
    assert_eq!(edges[0], vec![true, true]);
    assert_eq!(edges[1], vec![false, true]);
}

#[test]
fn the_closure_follows_chains_of_edges() {
    let edges = build_edges(5, &vec![(1, 2), (2, 3), (3, 1), (3, 4)]);
    let reach = transitive_closure(&edges);
    assert_eq!(reach[0], vec![true, true, true, true, true]);
    assert_eq!(reach[1], vec![false, true, true, true, true]);
    assert_eq!(reach[2], vec![false, true, true, true, true]);
    assert_eq!(reach[3], vec![false, true, true, true, true]);
    assert_eq!(reach[4], vec![false, false, false, false, true]);
}

#[test]
fn the_closure_of_no_nodes_is_empty() {
    let edges = build_edges(0, &vec![(0, 0)]);
    assert!(edges.is_empty());
    assert!(transitive_closure(&edges).is_empty());
}

#[test]
fn components_come_in_a_topological_order() {
    let edges = build_edges(6, &vec![(1, 2), (2, 3), (3, 1), (3, 4), (5, 1)]);
    let reach = transitive_closure(&edges);
    let order = component_order(&reach);
    assert_eq!(order.len(), 4);
    assert_eq!(order[position(&order, 1)], vec![1, 2, 3]);
    assert_eq!(order[position(&order, 0)], vec![0]);
    assert_eq!(order[position(&order, 4)], vec![4]);
    assert_eq!(order[position(&order, 5)], vec![5]);
    assert!(position(&order, 0) < position(&order, 5));
    assert!(position(&order, 5) < position(&order, 1));
    assert!(position(&order, 1) < position(&order, 4));
    for a in 0..6 {
        for b in 0..6 {
            if edges[a][b] {
                assert!(position(&order, a) <= position(&order, b));
            }
        }
    }
}

#[test]
fn a_graph_keeps_its_edges() {
    let graph = SubsetGraph::new(build_edges(3, &vec![(1, 2), (2, 1)]));
    assert_eq!(graph.edges[1], vec![false, false, true]);
    assert_eq!(graph.reach[1], vec![false, true, true]);
    assert_eq!(graph.order, vec![vec![0], vec![1, 2]]);
}
