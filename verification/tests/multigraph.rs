use metric_backbone::{MultiDistance, MultidistanceGraph, MultidistanceGraphHashmap, NodeID};

fn sorted_nodes(graph: &MultidistanceGraphHashmap) -> Vec<usize> {
    let mut nodes: Vec<usize> = graph.nodes().iter().map(|n| n.0).collect();
    nodes.sort();
    nodes
}

#[test]
fn new_graph_is_empty() {
    let graph = MultidistanceGraphHashmap::new();
    assert!(graph.nodes().is_empty());
    assert!(graph.neighbor_edges(&NodeID(0)).is_empty());
    assert!(graph.edge_weight(NodeID(0), NodeID(1)).is_none());
    assert!(MultidistanceGraphHashmap::default().nodes().is_empty());
}

#[test]
fn add_edge_makes_both_ends_nodes() {
    let mut graph = MultidistanceGraphHashmap::new();
    graph.add_edge(NodeID(3), NodeID(8), MultiDistance::from_tuple(0, 0, 0, 2));
    assert_eq!(sorted_nodes(&graph), vec![3, 8]);
    assert_eq!(
        graph.neighbor_edges(&NodeID(3)),
        vec![(NodeID(8), MultiDistance::from_tuple(0, 0, 0, 2))]
    );
    assert!(graph.neighbor_edges(&NodeID(8)).is_empty());
    assert_eq!(
        graph.edge_weight(NodeID(3), NodeID(8)),
        Some(&MultiDistance::from_tuple(0, 0, 0, 2))
    );
    assert!(graph.edge_weight(NodeID(8), NodeID(3)).is_none());
}

#[test]
fn later_edge_overwrites_earlier_edge() {
    let graph =
        MultidistanceGraphHashmap::from_tuple_edge_list(&[(0, 1, 0, 0, 0, 1), (0, 1, 0, 1, 0, 1)]);
    assert_eq!(sorted_nodes(&graph), vec![0, 1]);
    assert_eq!(
        graph.neighbor_edges(&NodeID(0)),
        vec![(NodeID(1), MultiDistance::from_tuple(0, 1, 0, 1))]
    );
    assert_eq!(
        graph.edge_weight(NodeID(0), NodeID(1)),
        Some(&MultiDistance::from_tuple(0, 1, 0, 1))
    );
}

#[test]
fn remove_edge_keeps_the_nodes() {
    let mut graph =
        MultidistanceGraphHashmap::from_tuple_edge_list(&[(0, 1, 0, 0, 0, 1), (1, 2, 0, 0, 0, 1)]);
    graph.remove_edge(NodeID(0), NodeID(1));
    assert_eq!(sorted_nodes(&graph), vec![0, 1, 2]);
    assert!(graph.edge_weight(NodeID(0), NodeID(1)).is_none());
    assert!(graph.edge_weight(NodeID(1), NodeID(2)).is_some());
    // Removing what is not there changes nothing.
    graph.remove_edge(NodeID(0), NodeID(1));
    graph.remove_edge(NodeID(7), NodeID(1));
    graph.remove_edge(NodeID(2), NodeID(9));
    assert_eq!(sorted_nodes(&graph), vec![0, 1, 2]);
    assert!(graph.edge_weight(NodeID(1), NodeID(2)).is_some());
}

#[test]
fn edge_lists_give_the_same_graph() {
    let from_tuples = MultidistanceGraphHashmap::from_tuple_edge_list(&[
        (0, 1, 0, 0, 0, 1),
        (1, 2, 0, 1, 0, 0),
        (2, 0, 1, 1, 0, 6),
    ]);
    let from_distances = MultidistanceGraphHashmap::from_multidistance_edge_list(vec![
        (NodeID(0), NodeID(1), MultiDistance::from_tuple(0, 0, 0, 1)),
        (NodeID(1), NodeID(2), MultiDistance::new()),
        (NodeID(2), NodeID(0), MultiDistance::from_tuple(1, 1, 0, 6)),
    ]);
    assert_eq!(sorted_nodes(&from_tuples), sorted_nodes(&from_distances));
    for u in 0..3 {
        for v in 0..3 {
            assert_eq!(
                from_tuples.edge_weight(NodeID(u), NodeID(v)),
                from_distances.edge_weight(NodeID(u), NodeID(v))
            );
        }
    }
    assert_eq!(
        from_tuples.edge_weight(NodeID(1), NodeID(2)),
        Some(&MultiDistance::new())
    );
    let copy = from_tuples.clone();
    assert_eq!(sorted_nodes(&copy), vec![0, 1, 2]);
}
