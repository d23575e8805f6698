use metric_backbone::{
    distance_closure, multidistance_closure, MultiDistance, MultidistanceGraphHashmap,
};
use std::collections::HashMap;

#[test]
fn test_simple_multilayer_closure() {
    let m01 = MultiDistance::from_tuple(0, 0, 0, 1);
    let m03 = MultiDistance::from_tuple(0, 1, 0, 2);
    let m12 = MultiDistance::from_tuple(0, 1, 0, 1);
    let m23 = MultiDistance::from_tuple(1, 1, 0, 1);

    let graph = MultidistanceGraphHashmap::from_tuple_edge_list(&[
        (0, 1, 0, 0, 0, 1),
        (0, 3, 0, 1, 0, 2),
        (1, 2, 0, 1, 0, 1),
        (2, 3, 1, 1, 0, 1),
    ]);

    let expected_from_0: HashMap<usize, Vec<MultiDistance>> = HashMap::from([
        (1, vec![m01.clone()]),
        (2, vec![m01.clone() + m12.clone()]),
        (
            3,
            vec![m01.clone() + m12.clone() + m23.clone(), m03.clone()],
        ),
    ]);
    let expected_from_1: HashMap<usize, Vec<MultiDistance>> = HashMap::from([
        (2, vec![m12.clone()]),
        (3, vec![m12.clone() + m23.clone()]),
    ]);
    let expected_from_2: HashMap<usize, Vec<MultiDistance>> =
        HashMap::from([(3, vec![m23.clone()])]);
    let expected_from_3: HashMap<usize, Vec<MultiDistance>> = HashMap::from([]);

    let expected = HashMap::from([
        (0, expected_from_0),
        (1, expected_from_1),
        (2, expected_from_2),
        (3, expected_from_3),
    ]);

    let closure = multidistance_closure(&graph);

    assert_eq!(expected, closure);
}

#[test]
fn two_layer_diamond_has_two_incomparable_distances() {
    let closure = distance_closure(&[
        (0, 1, 0, 0, 0, 1),
        (0, 3, 0, 1, 0, 2),
        (1, 2, 0, 1, 0, 1),
        (2, 3, 1, 1, 0, 1),
    ]);
    let long = MultiDistance::from_tuple(0, 0, 0, 1)
        + MultiDistance::from_tuple(0, 1, 0, 1)
        + MultiDistance::from_tuple(1, 1, 0, 1);
    let short = MultiDistance::from_tuple(0, 1, 0, 2);
    let front = &closure[&0][&3];
    assert_eq!(front.len(), 2);
    assert!(front.contains(&long));
    assert!(front.contains(&short));
    assert!(long.partial_cmp(&short).is_none());
}

#[test]
fn closure_has_a_key_for_every_node() {
    let closure = distance_closure(&[(0, 1, 0, 0, 0, 1), (2, 2, 0, 0, 0, 3), (5, 0, 0, 0, 0, 0)]);
    let mut keys: Vec<usize> = closure.keys().copied().collect();
    keys.sort();
    assert_eq!(keys, vec![0, 1, 2, 5]);
    assert!(closure[&1].is_empty());
    assert!(closure[&2].is_empty());
    assert_eq!(closure[&5][&0], vec![MultiDistance::new()]);
    assert_eq!(closure[&5][&1], vec![MultiDistance::from_tuple(0, 0, 0, 1)]);
}

#[test]
fn closure_of_nothing_is_empty() {
    assert!(distance_closure(&[]).is_empty());
}

#[test]
fn closure_is_the_same_on_every_run() {
    let edges = [
        (0, 1, 0, 0, 0, 1),
        (1, 2, 0, 1, 0, 1),
        (2, 0, 1, 1, 0, 1),
        (0, 2, 0, 0, 0, 5),
        (2, 3, 0, 0, 0, 1),
        (3, 1, 0, 1, 0, 4),
    ];
    let first = distance_closure(&edges);
    for _ in 0..5 {
        let again = distance_closure(&edges);
        assert_eq!(first.len(), again.len());
        for (source, fronts) in &first {
            for (target, front) in fronts {
                let other = &again[source][target];
                assert_eq!(front.len(), other.len());
                for d in front {
                    assert!(other.contains(d));
                }
            }
        }
    }
}
