use metric_backbone::{
    distance_closure, fast_backbone_costa, fast_backbone_simas, is_metric_in_n_steps,
    multilayer_backbone, structural_backbone, MissingEdgeError, MultiDistance, MultidistanceGraph,
    MultidistanceGraphHashmap, NodeID,
};

type Edge = (usize, usize, usize, usize, usize, u64);

fn edges_of(graph: &MultidistanceGraphHashmap) -> Vec<(usize, usize)> {
    let mut edges = Vec::new();
    for node in graph.nodes() {
        for (target, _) in graph.neighbor_edges(&node) {
            edges.push((node.0, target.0));
        }
    }
    edges.sort();
    edges
}

fn naive(edges: &[Edge]) -> Vec<(usize, usize)> {
    let mut graph = MultidistanceGraphHashmap::from_tuple_edge_list(edges);
    structural_backbone(&mut graph, None);
    edges_of(&graph)
}

fn costa(edges: &[Edge]) -> Vec<(usize, usize)> {
    let mut graph = MultidistanceGraphHashmap::from_tuple_edge_list(edges);
    fast_backbone_costa(&mut graph);
    edges_of(&graph)
}

fn simas(edges: &[Edge]) -> Vec<(usize, usize)> {
    let mut graph = MultidistanceGraphHashmap::from_tuple_edge_list(edges);
    fast_backbone_simas(&mut graph);
    edges_of(&graph)
}

#[test]
fn shortcut_of_equal_weight_stays() {
    let edges = [(0, 1, 0, 0, 0, 2), (1, 2, 0, 0, 0, 2), (0, 2, 0, 0, 0, 4)];
    assert_eq!(costa(&edges), vec![(0, 1), (0, 2), (1, 2)]);
    assert_eq!(naive(&edges), vec![(0, 1), (0, 2), (1, 2)]);
    assert_eq!(simas(&edges), vec![(0, 1), (0, 2), (1, 2)]);
}

#[test]
fn heavier_shortcut_is_removed() {
    let edges = [(0, 1, 0, 0, 0, 2), (1, 2, 0, 0, 0, 2), (0, 2, 0, 0, 0, 5)];
    assert_eq!(costa(&edges), vec![(0, 1), (1, 2)]);
    assert_eq!(naive(&edges), vec![(0, 1), (1, 2)]);
    assert_eq!(simas(&edges), vec![(0, 1), (1, 2)]);
}

#[test]
fn backbone_keeps_the_nodes_and_the_weights() {
    let edges = [(0, 1, 0, 0, 0, 2), (1, 2, 0, 0, 0, 2), (0, 2, 0, 0, 0, 5)];
    let mut graph = MultidistanceGraphHashmap::from_tuple_edge_list(&edges);
    fast_backbone_costa(&mut graph);
    let mut nodes: Vec<usize> = graph.nodes().iter().map(|n| n.0).collect();
    nodes.sort();
    assert_eq!(nodes, vec![0, 1, 2]);
    assert_eq!(
        graph.edge_weight(NodeID(0), NodeID(1)),
        Some(&MultiDistance::from_tuple(0, 0, 0, 2))
    );
    assert!(graph.edge_weight(NodeID(0), NodeID(2)).is_none());
}

#[test]
fn simas_promotes_in_the_second_step() {
    // The walk 0 -> 1 -> 2 and the edge 0 -> 2 are incomparable.
    let edges = [(0, 1, 0, 0, 0, 1), (1, 2, 1, 1, 0, 1), (0, 2, 0, 0, 0, 2)];
    assert_eq!(simas(&edges), vec![(0, 1), (0, 2), (1, 2)]);
    assert_eq!(naive(&edges), vec![(0, 1), (0, 2), (1, 2)]);
    assert_eq!(costa(&edges), vec![(0, 1), (0, 2), (1, 2)]);
}

#[test]
fn simas_does_not_promote_what_a_later_known_edge_undercuts() {
    // 0 -> 1 is minimal; 0 -> 2 becomes minimal among the rest and is
    // promoted; 0 -> 3 is then minimal among the rest, but 0 -> 2 -> 3 is
    // strictly below it.
    let edges = [
        (0, 1, 0, 0, 0, 1),
        (0, 2, 0, 0, 0, 2),
        (0, 3, 0, 0, 0, 9),
        (2, 3, 0, 0, 0, 1),
        (1, 4, 0, 0, 0, 50),
    ];
    assert_eq!(simas(&edges), vec![(0, 1), (0, 2), (1, 4), (2, 3)]);
    assert_eq!(naive(&edges), vec![(0, 1), (0, 2), (1, 4), (2, 3)]);
    assert_eq!(costa(&edges), vec![(0, 1), (0, 2), (1, 4), (2, 3)]);
}

#[test]
fn oracle_tells_incomparable_from_beaten() {
    let incomparable =
        MultidistanceGraphHashmap::from_tuple_edge_list(&[
            (0, 3, 1, 1, 0, 5),
            (0, 1, 0, 0, 0, 1),
            (1, 3, 0, 0, 0, 1),
        ]);
    assert_eq!(
        is_metric_in_n_steps(&incomparable, NodeID(0), NodeID(3), None),
        Ok(true)
    );
    let beaten = MultidistanceGraphHashmap::from_tuple_edge_list(&[
        (0, 3, 0, 0, 0, 5),
        (0, 1, 0, 0, 0, 1),
        (1, 3, 0, 0, 0, 1),
    ]);
    assert_eq!(
        is_metric_in_n_steps(&beaten, NodeID(0), NodeID(3), None),
        Ok(false)
    );
    assert_eq!(
        is_metric_in_n_steps(&beaten, NodeID(0), NodeID(1), None),
        Ok(true)
    );
}

#[test]
fn oracle_counts_hops() {
    // The detour 0 -> 1 -> 2 -> 3 needs three hops.
    let graph = MultidistanceGraphHashmap::from_tuple_edge_list(&[
        (0, 1, 0, 0, 0, 1),
        (1, 2, 0, 0, 0, 1),
        (2, 3, 0, 0, 0, 1),
        (0, 3, 0, 0, 0, 10),
    ]);
    assert_eq!(is_metric_in_n_steps(&graph, NodeID(0), NodeID(3), Some(0)), Ok(false));
    assert_eq!(is_metric_in_n_steps(&graph, NodeID(0), NodeID(3), Some(1)), Ok(true));
    assert_eq!(is_metric_in_n_steps(&graph, NodeID(0), NodeID(3), Some(2)), Ok(true));
    assert_eq!(is_metric_in_n_steps(&graph, NodeID(0), NodeID(3), Some(3)), Ok(false));
    assert_eq!(is_metric_in_n_steps(&graph, NodeID(0), NodeID(3), None), Ok(false));
}

#[test]
fn oracle_reports_a_missing_edge() {
    let graph = MultidistanceGraphHashmap::from_tuple_edge_list(&[(0, 1, 0, 0, 0, 1)]);
    assert_eq!(
        is_metric_in_n_steps(&graph, NodeID(1), NodeID(0), None),
        Err(MissingEdgeError {
            source: NodeID(1),
            target: NodeID(0)
        })
    );
    assert_eq!(
        is_metric_in_n_steps(&graph, NodeID(5), NodeID(6), Some(2)),
        Err(MissingEdgeError {
            source: NodeID(5),
            target: NodeID(6)
        })
    );
}

#[test]
fn loop_is_metric_only_with_weight_zero() {
    let graph = MultidistanceGraphHashmap::from_tuple_edge_list(&[
        (0, 0, 0, 0, 0, 3),
        (1, 1, 0, 0, 0, 0),
        (0, 1, 0, 0, 0, 1),
    ]);
    assert_eq!(is_metric_in_n_steps(&graph, NodeID(0), NodeID(0), None), Ok(false));
    assert_eq!(is_metric_in_n_steps(&graph, NodeID(1), NodeID(1), None), Ok(true));
    assert_eq!(is_metric_in_n_steps(&graph, NodeID(1), NodeID(1), Some(0)), Ok(true));
}

#[test]
fn structural_backbone_with_a_cap_sees_short_detours_only() {
    let edges = [
        (0, 1, 0, 0, 0, 1),
        (1, 2, 0, 0, 0, 1),
        (2, 3, 0, 0, 0, 1),
        (0, 3, 0, 0, 0, 10),
        (0, 2, 0, 0, 0, 7),
    ];
    let mut two = MultidistanceGraphHashmap::from_tuple_edge_list(&edges);
    structural_backbone(&mut two, Some(2));
    // Within two hops 0 -> 2 is beaten by 0 -> 1 -> 2 and 0 -> 3 by 0 -> 2 -> 3.
    assert_eq!(edges_of(&two), vec![(0, 1), (1, 2), (2, 3)]);
    let mut one = MultidistanceGraphHashmap::from_tuple_edge_list(&edges);
    structural_backbone(&mut one, Some(1));
    assert_eq!(edges_of(&one), vec![(0, 1), (0, 2), (0, 3), (1, 2), (2, 3)]);
    let mut zero = MultidistanceGraphHashmap::from_tuple_edge_list(&edges);
    structural_backbone(&mut zero, Some(0));
    assert!(edges_of(&zero).is_empty());
}

#[test]
fn backbones_are_subsets_and_agree() {
    let edges = [
        (0, 1, 0, 0, 0, 1),
        (0, 2, 0, 0, 0, 5),
        (0, 3, 0, 0, 0, 1),
        (1, 4, 0, 0, 0, 1),
        (2, 5, 0, 0, 0, 1),
        (3, 2, 0, 0, 0, 1),
        (4, 2, 0, 0, 0, 1),
        (0, 5, 0, 1, 0, 1),
        (5, 0, 1, 1, 0, 2),
        (4, 0, 1, 1, 0, 1),
        (1, 0, 0, 0, 0, 9),
        (2, 2, 0, 0, 0, 0),
    ];
    let all = edges_of(&MultidistanceGraphHashmap::from_tuple_edge_list(&edges));
    let by_naive = naive(&edges);
    let by_costa = costa(&edges);
    let by_simas = simas(&edges);
    for e in &by_costa {
        assert!(all.contains(e));
    }
    for e in &by_simas {
        assert!(all.contains(e));
    }
    assert_eq!(by_naive, by_costa);
    assert_eq!(by_naive, by_simas);
    assert!(by_naive.contains(&(2, 2)));
    assert!(!by_naive.contains(&(0, 2)));
    // 1 -> 4 -> 0 is lighter in one layer and heavier in another.
    assert!(by_naive.contains(&(1, 0)));
}

#[test]
fn loops_of_weight_not_zero_tell_the_backbones_apart() {
    let edges = [(0, 0, 0, 0, 0, 3), (0, 1, 0, 0, 0, 5)];
    assert_eq!(naive(&edges), vec![(0, 1)]);
    assert_eq!(costa(&edges), vec![(0, 0), (0, 1)]);
    assert_eq!(simas(&edges), vec![(0, 0), (0, 1)]);
}

#[test]
fn removing_a_semimetric_edge_leaves_the_closure() {
    let edges = [
        (0, 1, 0, 0, 0, 2),
        (1, 2, 0, 0, 0, 2),
        (0, 2, 0, 0, 0, 5),
        (2, 3, 0, 1, 0, 1),
        (0, 3, 0, 1, 0, 1),
    ];
    let without = [
        (0, 1, 0, 0, 0, 2),
        (1, 2, 0, 0, 0, 2),
        (2, 3, 0, 1, 0, 1),
        (0, 3, 0, 1, 0, 1),
    ];
    let before = distance_closure(&edges);
    let after = distance_closure(&without);
    assert_eq!(before.len(), after.len());
    for (source, fronts) in &before {
        assert_eq!(fronts.len(), after[source].len());
        for (target, front) in fronts {
            let other = &after[source][target];
            assert_eq!(front.len(), other.len());
            for d in front {
                assert!(other.contains(d));
            }
        }
    }
}

#[test]
fn multilayer_backbone_of_the_diamond_keeps_all_edges() {
    let edges = [
        (0, 1, 0, 0, 0, 1),
        (0, 3, 0, 1, 0, 2),
        (1, 2, 0, 1, 0, 1),
        (2, 3, 1, 1, 0, 1),
    ];
    let backbone = multilayer_backbone(&edges);
    let closure = distance_closure(&edges);
    let mut kept = Vec::new();
    for (source, row) in &backbone {
        for (target, front) in row {
            kept.push((*source, *target));
            let other = &closure[source][target];
            assert_eq!(front.len(), other.len());
            assert!(front.iter().all(|d| other.contains(d)));
        }
    }
    kept.sort();
    assert_eq!(kept, vec![(0, 1), (0, 3), (1, 2), (2, 3)]);
    assert_eq!(backbone[&0][&3].len(), 2);
}

#[test]
fn multilayer_backbone_drops_beaten_edges_and_loops() {
    let edges = [
        (0, 1, 0, 0, 0, 2),
        (1, 2, 0, 0, 0, 2),
        (0, 2, 0, 0, 0, 5),
        (1, 1, 0, 0, 0, 1),
    ];
    let backbone = multilayer_backbone(&edges);
    let mut kept = Vec::new();
    for (source, row) in &backbone {
        for target in row.keys() {
            kept.push((*source, *target));
        }
    }
    kept.sort();
    assert_eq!(kept, vec![(0, 1), (1, 2)]);
    assert!(multilayer_backbone(&[]).is_empty());
}

#[test]
fn parallel_edges_overwrite() {
    let edges = [(0, 1, 0, 0, 0, 1), (0, 1, 0, 1, 0, 1)];
    let closure = distance_closure(&edges);
    assert_eq!(closure[&0][&1], vec![MultiDistance::from_tuple(0, 1, 0, 1)]);
    let backbone = multilayer_backbone(&edges);
    assert_eq!(backbone[&0][&1], vec![MultiDistance::from_tuple(0, 1, 0, 1)]);
    assert_eq!(naive(&edges), vec![(0, 1)]);
}

#[test]
fn seeding_marks_minimal_edges_and_promotion_adds_to_them() {
    let graph = MultidistanceGraphHashmap::from_tuple_edge_list(&[
        (0, 1, 0, 0, 0, 1),
        (1, 2, 1, 1, 0, 1),
        (0, 2, 0, 0, 0, 2),
    ]);
    let mut known = metric_backbone::seeding::one_step_metric_edges(&graph);
    let mut seeded: Vec<(usize, usize)> = known.iter().map(|e| (e.0 .0, e.1 .0)).collect();
    seeded.sort();
    assert_eq!(seeded, vec![(0, 1), (1, 2)]);
    metric_backbone::seeding::two_step_metric_edges(&graph, &mut known);
    let mut refined: Vec<(usize, usize)> = known.iter().map(|e| (e.0 .0, e.1 .0)).collect();
    refined.sort();
    refined.dedup();
    assert_eq!(refined, vec![(0, 1), (0, 2), (1, 2)]);
}

#[test]
fn promotion_stops_at_an_undercut_edge() {
    let graph = MultidistanceGraphHashmap::from_tuple_edge_list(&[
        (0, 1, 0, 0, 0, 1),
        (0, 2, 0, 0, 0, 2),
        (0, 3, 0, 0, 0, 9),
        (2, 3, 0, 0, 0, 1),
    ]);
    let mut known = metric_backbone::seeding::one_step_metric_edges(&graph);
    metric_backbone::seeding::two_step_metric_edges(&graph, &mut known);
    let mut refined: Vec<(usize, usize)> = known.iter().map(|e| (e.0 .0, e.1 .0)).collect();
    refined.sort();
    refined.dedup();
    assert_eq!(refined, vec![(0, 1), (0, 2), (2, 3)]);
}
