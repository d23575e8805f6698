use metric_backbone::{
    parteto_shortest_distance_from_source, MultiDistance, MultidistanceGraphHashmap, NodeID,
};
use std::collections::HashMap;

#[test]
fn test_simple_single_layer_shortest_path() {
    let m01 = MultiDistance::from_tuple(0, 0, 0, 2);
    let m02 = MultiDistance::from_tuple(0, 0, 0, 4);

    let expected: HashMap<usize, Vec<MultiDistance>> =
        HashMap::from([(1, vec![m01]), (2, vec![m02])]);

    let graph = MultidistanceGraphHashmap::from_tuple_edge_list(&[
        (0, 1, 0, 0, 0, 2),
        (0, 2, 0, 0, 0, 4),
        (1, 2, 0, 0, 0, 2),
    ]);
    let shortest_paths = parteto_shortest_distance_from_source(NodeID(0), &graph, None, None);

    assert_eq!(expected, shortest_paths);
}

#[test]
fn test_simple_multilayer_shortest_path() {
    let m01 = MultiDistance::from_tuple(0, 0, 0, 1);
    let m03 = MultiDistance::from_tuple(0, 1, 0, 2);
    let m12 = MultiDistance::from_tuple(0, 1, 0, 1);
    let m23 = MultiDistance::from_tuple(1, 1, 0, 1);

    let graph = MultidistanceGraphHashmap::from_tuple_edge_list(&[
        (0, 1, 0, 0, 0, 1),
        (0, 3, 0, 1, 0, 2),
        (1, 2, 0, 1, 0, 1),
        (2, 3, 1, 1, 0, 1),
    ]);

    let expected: HashMap<usize, Vec<MultiDistance>> = HashMap::from([
        (1, vec![m01.clone()]),
        (2, vec![m01.clone() + m12.clone()]),
        (3, vec![m01 + m12 + m23, m03]),
    ]);

    let shortest_paths = parteto_shortest_distance_from_source(NodeID(0), &graph, None, None);

    assert_eq!(expected, shortest_paths);
}

#[test]
fn test_simple_cycle_shortest_path() {
    let m0 = MultiDistance::from_tuple(0, 0, 0, 2);
    let m1 = MultiDistance::from_tuple(0, 0, 0, 4);

    let graph = MultidistanceGraphHashmap::from_tuple_edge_list(&[
        (0, 1, 0, 0, 0, 2),
        (0, 2, 0, 0, 0, 4),
        (1, 0, 0, 1, 0, 2),
        (1, 2, 0, 0, 0, 2),
        (2, 1, 0, 0, 0, 2),
    ]);

    let expected: HashMap<usize, Vec<MultiDistance>> =
        HashMap::from([(1, vec![m0]), (2, vec![m1])]);

    let shortest_paths = parteto_shortest_distance_from_source(NodeID(0), &graph, None, None);

    assert_eq!(expected, shortest_paths);
}

#[test]
fn cycle_does_not_explode() {
    let graph = MultidistanceGraphHashmap::from_tuple_edge_list(&[
        (0, 1, 0, 0, 0, 2),
        (1, 0, 0, 0, 0, 2),
        (1, 2, 0, 0, 0, 2),
        (2, 1, 0, 0, 0, 2),
        (0, 2, 0, 0, 0, 4),
    ]);
    let found = parteto_shortest_distance_from_source(NodeID(0), &graph, None, None);
    assert_eq!(found.get(&1), Some(&vec![MultiDistance::from_tuple(0, 0, 0, 2)]));
    assert_eq!(found.get(&2), Some(&vec![MultiDistance::from_tuple(0, 0, 0, 4)]));
    assert!(!found.contains_key(&0));
    assert_eq!(found.len(), 2);
}

#[test]
fn cycle_of_weight_zero_terminates() {
    let graph = MultidistanceGraphHashmap::from_tuple_edge_list(&[
        (0, 1, 0, 0, 0, 0),
        (1, 0, 0, 0, 0, 0),
        (1, 2, 0, 0, 0, 3),
    ]);
    let found = parteto_shortest_distance_from_source(NodeID(0), &graph, None, None);
    assert_eq!(found.get(&1), Some(&vec![MultiDistance::new()]));
    assert_eq!(found.get(&2), Some(&vec![MultiDistance::from_tuple(0, 0, 0, 3)]));
    assert!(!found.contains_key(&0));
}

#[test]
fn unreachable_nodes_are_absent() {
    let graph = MultidistanceGraphHashmap::from_tuple_edge_list(&[
        (0, 1, 0, 0, 0, 1),
        (2, 3, 0, 0, 0, 1),
    ]);
    let found = parteto_shortest_distance_from_source(NodeID(0), &graph, None, None);
    assert_eq!(found.len(), 1);
    assert!(found.contains_key(&1));
    let from_sink = parteto_shortest_distance_from_source(NodeID(1), &graph, None, None);
    assert!(from_sink.is_empty());
    let from_stranger = parteto_shortest_distance_from_source(NodeID(9), &graph, None, None);
    assert!(from_stranger.is_empty());
}

#[test]
fn depth_cap_bounds_the_hops() {
    // 0 -> 1 -> 2 -> 3 costs 3 in three hops; the direct edge costs 10.
    let graph = MultidistanceGraphHashmap::from_tuple_edge_list(&[
        (0, 1, 0, 0, 0, 1),
        (1, 2, 0, 0, 0, 1),
        (2, 3, 0, 0, 0, 1),
        (0, 3, 0, 0, 0, 10),
    ]);
    let unit = |n: u64| MultiDistance::from_tuple(0, 0, 0, n);

    let none = parteto_shortest_distance_from_source(NodeID(0), &graph, Some(0), None);
    assert!(none.is_empty());

    let one = parteto_shortest_distance_from_source(NodeID(0), &graph, Some(1), None);
    assert_eq!(
        one,
        HashMap::from([(1, vec![unit(1)]), (3, vec![unit(10)])])
    );

    let two = parteto_shortest_distance_from_source(NodeID(0), &graph, Some(2), None);
    assert_eq!(
        two,
        HashMap::from([(1, vec![unit(1)]), (2, vec![unit(2)]), (3, vec![unit(10)])])
    );

    let three = parteto_shortest_distance_from_source(NodeID(0), &graph, Some(3), None);
    assert_eq!(
        three,
        HashMap::from([(1, vec![unit(1)]), (2, vec![unit(2)]), (3, vec![unit(3)])])
    );

    let all = parteto_shortest_distance_from_source(NodeID(0), &graph, None, None);
    assert_eq!(all, three);
}

#[test]
fn fronts_are_antichains_that_cover_the_edges() {
    let edges = [
        (0, 1, 0, 0, 0, 3),
        (0, 1, 0, 0, 0, 1),
        (0, 2, 0, 1, 0, 1),
        (2, 1, 0, 1, 0, 1),
        (1, 3, 1, 1, 0, 2),
        (2, 3, 0, 0, 0, 1),
        (3, 0, 0, 0, 0, 1),
    ];
    let graph = MultidistanceGraphHashmap::from_tuple_edge_list(&edges);
    for source in 0..4 {
        let found = parteto_shortest_distance_from_source(NodeID(source), &graph, None, None);
        assert!(!found.contains_key(&source));
        for front in found.values() {
            assert!(!front.is_empty());
            for (i, a) in front.iter().enumerate() {
                for (j, b) in front.iter().enumerate() {
                    if i != j {
                        assert!(a.partial_cmp(b).is_none());
                    }
                }
            }
        }
    }
    // The later tuple between 0 and 1 is the edge of the graph.
    let from_zero = parteto_shortest_distance_from_source(NodeID(0), &graph, None, None);
    let direct = MultiDistance::from_tuple(0, 0, 0, 1);
    assert!(from_zero[&1].iter().any(|d| d <= &direct));
}

#[test]
fn search_stops_once_the_target_is_beaten() {
    let graph = MultidistanceGraphHashmap::from_tuple_edge_list(&[
        (0, 1, 0, 0, 0, 1),
        (1, 3, 0, 0, 0, 1),
        (0, 3, 0, 0, 0, 5),
        (3, 4, 0, 0, 0, 1),
    ]);
    let direct = MultiDistance::from_tuple(0, 0, 0, 5);
    let target = NodeID(3);
    let found =
        parteto_shortest_distance_from_source(NodeID(0), &graph, None, Some((&target, &direct)));
    let front = &found[&3];
    assert!(front.iter().any(|d| d < &direct));
    assert!(!front.contains(&direct));
}

#[test]
fn search_drops_what_is_above_the_weight_to_beat() {
    let graph = MultidistanceGraphHashmap::from_tuple_edge_list(&[
        (0, 1, 0, 0, 0, 7),
        (0, 3, 0, 0, 0, 5),
        (1, 3, 0, 0, 0, 1),
    ]);
    let direct = MultiDistance::from_tuple(0, 0, 0, 5);
    let target = NodeID(3);
    let found =
        parteto_shortest_distance_from_source(NodeID(0), &graph, None, Some((&target, &direct)));
    assert_eq!(found.get(&3), Some(&vec![direct]));
    assert!(!found.contains_key(&1));
}
