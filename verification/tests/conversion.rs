use metric_backbone::{
    edges_to_multiplex, multidistance_closure, MultiDistance, MultidistanceGraph,
    MultidistanceGraphHashmap, NodeID,
};
use std::collections::HashMap;

#[test]
fn test_simple_conversion() {
    let m01 = MultiDistance::from_tuple(0, 0, 0, 1);
    let m03 = MultiDistance::from_tuple(0, 1, 0, 2);
    let m12 = MultiDistance::from_tuple(0, 1, 0, 1);
    let m23 = MultiDistance::from_tuple(1, 1, 0, 1);

    let edge_list_expected: HashMap<usize, Vec<(NodeID, MultiDistance)>> = HashMap::from([
        (
            0,
            vec![(NodeID(1), m01.clone()), (NodeID(3), m03.clone())],
        ),
        (1, vec![(NodeID(2), m12.clone())]),
        (2, vec![(NodeID(3), m23.clone())]),
        (3, vec![]),
    ]);

    let multiplex = edges_to_multiplex(&[
        (0, 1, 0, 0, 0, 1),
        (0, 3, 0, 1, 0, 2),
        (1, 2, 0, 1, 0, 1),
        (2, 3, 1, 1, 0, 1),
    ]);
    assert_eq!(edge_list_expected, multiplex);
}

#[test]
fn test_complicated_example() {
    let edges = [
        (7, 0, 1, 0, 0, 0),
        (0, 7, 0, 1, 0, 0),
        (8, 4, 1, 0, 0, 0),
        (4, 8, 0, 1, 0, 0),
        (9, 1, 1, 0, 0, 0),
        (1, 9, 0, 1, 0, 0),
        (10, 3, 1, 0, 0, 0),
        (3, 10, 0, 1, 0, 0),
        (11, 5, 1, 0, 0, 0),
        (5, 11, 0, 1, 0, 0),
        (12, 2, 1, 0, 0, 0),
        (2, 12, 0, 1, 0, 0),
        (13, 0, 2, 0, 0, 0),
        (0, 13, 0, 2, 0, 0),
        (13, 6, 2, 1, 0, 0),
        (6, 13, 1, 2, 0, 0),
        (14, 1, 2, 0, 0, 0),
        (1, 14, 0, 2, 0, 0),
        (14, 8, 2, 1, 0, 0),
        (8, 14, 1, 2, 0, 0),
        (15, 4, 2, 0, 0, 0),
        (4, 15, 0, 2, 0, 0),
        (15, 7, 2, 1, 0, 0),
        (7, 15, 1, 2, 0, 0),
        (16, 3, 2, 0, 0, 0),
        (3, 16, 0, 2, 0, 0),
        (16, 9, 2, 1, 0, 0),
        (9, 16, 1, 2, 0, 0),
        (17, 2, 2, 0, 0, 0),
        (2, 17, 0, 2, 0, 0),
        (17, 11, 2, 1, 0, 0),
        (11, 17, 1, 2, 0, 0),
        (18, 5, 2, 0, 0, 0),
        (5, 18, 0, 2, 0, 0),
        (18, 10, 2, 1, 0, 0),
        (10, 18, 1, 2, 0, 0),
        (0, 1, 0, 0, 0, 1),
        (0, 2, 0, 0, 0, 5),
        (0, 3, 0, 0, 0, 1),
        (1, 4, 0, 0, 0, 1),
        (2, 5, 0, 0, 0, 1),
        (3, 2, 0, 0, 0, 1),
        (4, 2, 0, 0, 0, 1),
        (6, 7, 1, 1, 0, 1),
        (7, 8, 1, 1, 0, 1),
        (8, 9, 1, 1, 0, 1),
        (8, 10, 1, 1, 0, 1),
        (9, 11, 1, 1, 0, 1),
        (12, 13, 2, 2, 0, 1),
        (14, 15, 2, 2, 0, 1),
        (16, 17, 2, 2, 0, 1),
    ];
    let multiplex = edges_to_multiplex(&edges);
    let _closure = multidistance_closure(&multiplex);
}

#[test]
fn adjacency_lists_are_a_graph() {
    let edges = [
        (0, 1, 0, 0, 0, 1),
        (0, 3, 0, 1, 0, 2),
        (1, 2, 0, 1, 0, 1),
        (2, 3, 1, 1, 0, 1),
        (3, 0, 0, 0, 0, 4),
    ];
    let mut lists = edges_to_multiplex(&edges);
    let graph = MultidistanceGraphHashmap::from_tuple_edge_list(&edges);
    let from_lists = multidistance_closure(&lists);
    let from_graph = multidistance_closure(&graph);
    assert_eq!(from_lists.len(), from_graph.len());
    for (source, fronts) in &from_lists {
        assert_eq!(fronts.len(), from_graph[source].len());
        for (target, front) in fronts {
            let other = &from_graph[source][target];
            assert_eq!(front.len(), other.len());
            assert!(front.iter().all(|d| other.contains(d)));
        }
    }
    let mut nodes: Vec<usize> = lists.nodes().iter().map(|n| n.0).collect();
    nodes.sort();
    assert_eq!(nodes, vec![0, 1, 2, 3]);
    assert_eq!(
        lists.edge_weight(NodeID(0), NodeID(3)),
        Some(&MultiDistance::from_tuple(0, 1, 0, 2))
    );
    assert!(lists.edge_weight(NodeID(3), NodeID(1)).is_none());

    lists.add_edge(NodeID(0), NodeID(3), MultiDistance::from_tuple(0, 1, 0, 7));
    lists.add_edge(NodeID(3), NodeID(9), MultiDistance::new());
    assert_eq!(
        lists.neighbor_edges(&NodeID(0)),
        vec![
            (NodeID(1), MultiDistance::from_tuple(0, 0, 0, 1)),
            (NodeID(3), MultiDistance::from_tuple(0, 1, 0, 7)),
        ]
    );
    assert!(lists.neighbor_edges(&NodeID(9)).is_empty());
    assert_eq!(lists.nodes().len(), 5);

    lists.remove_edge(NodeID(0), NodeID(1));
    lists.remove_edge(NodeID(0), NodeID(2));
    lists.remove_edge(NodeID(8), NodeID(2));
    assert_eq!(
        lists.neighbor_edges(&NodeID(0)),
        vec![(NodeID(3), MultiDistance::from_tuple(0, 1, 0, 7))]
    );
    assert_eq!(lists.nodes().len(), 5);
}

#[test]
fn multiplex_keeps_parallel_edges_and_sinks() {
    let multiplex = edges_to_multiplex(&[
        (0, 1, 0, 0, 0, 1),
        (0, 1, 0, 1, 0, 2),
        (1, 1, 0, 0, 0, 0),
    ]);
    assert_eq!(multiplex.len(), 2);
    assert_eq!(
        multiplex[&0],
        vec![
            (NodeID(1), MultiDistance::from_tuple(0, 0, 0, 1)),
            (NodeID(1), MultiDistance::from_tuple(0, 1, 0, 2)),
        ]
    );
    assert_eq!(multiplex[&1], vec![(NodeID(1), MultiDistance::new())]);
    assert!(edges_to_multiplex(&[]).is_empty());
}
