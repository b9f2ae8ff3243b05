use tow_dispatch::errors::DispatchError;
use tow_dispatch::graph::{Edge, Graph, Node, UNREACHABLE_DISTANCE};

fn node(id: i32) -> Node {
    Node { id, x: 0, y: 0 }
}

fn edge(a: i32, b: i32, w: i32) -> Edge {
    Edge {
        node_a_id: a,
        node_b_id: b,
        weight: w,
    }
}

fn three_node_line() -> Graph {
    let mut g = Graph::new();
    g.add_node(node(1));
    g.add_node(node(2));
    g.add_node(node(3));
    g.add_edge(edge(1, 2, 5)).unwrap();
    g.add_edge(edge(2, 3, 3)).unwrap();
    g
}

#[test]
fn scenario_line_graph_distance_and_nearest() {
    let g = three_node_line();
    assert_eq!(g.shortest_distance(1, 3), 8);
    assert_eq!(g.find_closest_node(1, vec![3], 10), Some(3));
    assert_eq!(g.find_closest_node(1, vec![3], 5), None);
}

#[test]
fn distance_to_self_is_zero() {
    let g = three_node_line();
    assert_eq!(g.shortest_distance(1, 1), 0);
    assert_eq!(g.shortest_distance(2, 2), 0);
    let empty = Graph::new();
    assert_eq!(empty.shortest_distance(42, 42), 0);
}

#[test]
fn distance_is_symmetric() {
    let g = three_node_line();
    assert_eq!(g.shortest_distance(1, 3), g.shortest_distance(3, 1));
    assert_eq!(g.shortest_distance(1, 2), g.shortest_distance(2, 1));
    assert_eq!(g.shortest_distance(1, 99), g.shortest_distance(99, 1));
}

#[test]
fn shortest_path_beats_direct_heavy_edge() {
    let mut g = Graph::new();
    g.add_node(node(1));
    g.add_node(node(2));
    g.add_node(node(3));
    g.add_edge(edge(1, 2, 1)).unwrap();
    g.add_edge(edge(2, 3, 1)).unwrap();
    g.add_edge(edge(1, 3, 5)).unwrap();
    assert_eq!(g.shortest_distance(1, 3), 2);
}

#[test]
fn unreachable_pairs_report_sentinel() {
    let mut g = Graph::new();
    g.add_node(node(1));
    g.add_node(node(2));
    g.add_node(node(8));
    g.add_node(node(9));
    g.add_edge(edge(1, 2, 4)).unwrap();
    g.add_edge(edge(8, 9, 4)).unwrap();
    assert_eq!(g.shortest_distance(1, 8), UNREACHABLE_DISTANCE);
    assert_eq!(g.shortest_distance(1, 77), UNREACHABLE_DISTANCE);
    assert_eq!(g.find_closest_node(1, vec![8, 9], 1000), None);
}

#[test]
fn negative_weight_is_rejected() {
    let mut g = Graph::new();
    g.add_node(node(1));
    g.add_node(node(2));
    assert_eq!(
        g.add_edge(edge(1, 2, -1)),
        Err(DispatchError::ValidationFailed)
    );
    // The refused edge left no trace: the nodes stay disconnected.
    assert_eq!(g.shortest_distance(1, 2), UNREACHABLE_DISTANCE);
}

#[test]
fn nearest_goal_picks_the_minimum() {
    let g = three_node_line();
    assert_eq!(g.find_closest_node(1, vec![3, 2], 100), Some(2));
    assert_eq!(g.find_closest_node(3, vec![1, 2], 100), Some(2));
}

#[test]
fn nearest_goal_empty_goals_is_none() {
    let g = three_node_line();
    assert_eq!(g.find_closest_node(1, vec![], 100), None);
}

#[test]
fn nearest_goal_from_node_itself() {
    let g = three_node_line();
    assert_eq!(g.find_closest_node(2, vec![2], 0), Some(2));
}

#[test]
fn nearest_goal_from_unknown_node() {
    let g = three_node_line();
    assert_eq!(g.find_closest_node(55, vec![1, 2, 3], 1000), None);
}

#[test]
fn contains_node_reflects_insertions() {
    let mut g = Graph::new();
    assert!(!g.contains_node(4));
    g.add_node(node(4));
    assert!(g.contains_node(4));
    g.add_node(node(4));
    assert!(g.contains_node(4));
    assert!(!g.contains_node(5));
}
