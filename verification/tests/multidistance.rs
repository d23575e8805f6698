use metric_backbone::{multimin, EdgeLayerID, MultiDistance};

fn layer(start: usize, end: usize) -> EdgeLayerID {
    EdgeLayerID {
        layer_start: start,
        layer_end: end,
        layer_weight_index: 0,
    }
}

#[test]
fn test_partial_order() {
    let layer1 = layer(0, 0);
    let layer2 = layer(0, 1);

    let m1 = MultiDistance::from_entries(&vec![(layer1, 1), (layer2, 2)]);
    let m2 = MultiDistance::from_entries(&vec![(layer1, 2), (layer2, 1)]);
    let m3 = MultiDistance::from_entries(&vec![(layer1, 2), (layer2, 2)]);
    let m4 = MultiDistance::from_entries(&vec![(layer1, 1), (layer2, 1)]);
    let m5 = MultiDistance::from_entries(&vec![(layer2, 3)]);

    // testing basic equalities
    assert!(m5.partial_cmp(&m1).is_none());
    assert!(m5.partial_cmp(&m2).is_none());
    assert!(m5.partial_cmp(&m3).is_none());
    assert!(m5.partial_cmp(&m4).is_none());
    assert!(m1.partial_cmp(&m5).is_none());
    assert!(m2.partial_cmp(&m5).is_none());
    assert!(m3.partial_cmp(&m5).is_none());
    assert!(m4.partial_cmp(&m5).is_none());
    assert!(m1.partial_cmp(&m2).is_none());
    assert!(m2.partial_cmp(&m1).is_none());
    assert!(m1 < m3);
    assert!(m1 > m4);
    assert!(m2 < m3);
    assert!(m2 > m4);
    assert!(m4 < m3);
    assert!(m3 > m1);
    assert!(m4 < m1);
    assert!(m3 > m2);
    assert!(m4 < m2);
    assert!(m3 > m4);

    let dists = vec![m1.clone(), m2.clone(), m3.clone(), m4.clone()];
    let dists2 = vec![m1.clone(), m2.clone(), m3.clone()];
    let dists3 = vec![m1.clone(), m1.clone(), m2.clone()];
    let mm = multimin(&dists);
    let mm2 = multimin(&dists2);
    let mm3 = multimin(&dists3);

    // testing multimin stuff
    assert_eq!(multimin(&Vec::new()), Vec::new());
    assert_eq!(&mm, &vec![m4.clone()]);
    assert_eq!(&mm2, &vec![m1.clone(), m2.clone()]);
    assert_eq!(&mm3, &vec![m1.clone(), m2.clone()]);
    assert_eq!(
        &vec![m5.clone(), m1.clone()],
        &multimin(&[m5.clone(), m1.clone()])
    );
    assert_eq!(&vec![m1.clone(), m5.clone()], &multimin(&[m1.clone(), m5]));

    // testing addition
    assert_eq!(m1 + m2, m3 + m4);
}

#[test]
fn zero_is_the_identity_of_addition() {
    let a = MultiDistance::from_entries(&vec![(layer(0, 0), 3), (layer(1, 1), 4)]);
    assert_eq!(a.clone() + MultiDistance::new(), a);
    assert_eq!(MultiDistance::new() + a.clone(), a);
    assert_eq!(MultiDistance::default(), MultiDistance::new());
    assert!(MultiDistance::new().is_zero());
    assert!(!a.is_zero());
}

#[test]
fn addition_is_commutative_and_associative() {
    let a = MultiDistance::from_entries(&vec![(layer(0, 0), 3), (layer(1, 1), 4)]);
    let b = MultiDistance::from_entries(&vec![(layer(1, 1), 1), (layer(2, 2), 9)]);
    let c = MultiDistance::from_tuple(0, 0, 0, 5);
    assert_eq!(a.clone() + b.clone(), b.clone() + a.clone());
    assert_eq!(
        (a.clone() + b.clone()) + c.clone(),
        a.clone() + (b.clone() + c.clone())
    );
    let sum = a + b + c;
    assert_eq!(sum.get(&layer(0, 0)), 8);
    assert_eq!(sum.get(&layer(1, 1)), 5);
    assert_eq!(sum.get(&layer(2, 2)), 9);
    assert_eq!(sum.get(&layer(3, 3)), 0);
}

#[test]
fn addition_is_monotone() {
    let a = MultiDistance::from_entries(&vec![(layer(0, 0), 1)]);
    let b = MultiDistance::from_entries(&vec![(layer(0, 0), 2), (layer(1, 1), 1)]);
    let c = MultiDistance::from_entries(&vec![(layer(1, 1), 7), (layer(2, 2), 1)]);
    assert!(a <= b);
    assert!(a.clone() + c.clone() <= b.clone() + c.clone());
    assert!(a.le(&b));
    assert!(a.lt(&b));
    assert!(!b.le(&a));
    assert!(a.plus(&c).le(&b.plus(&c)));
}

#[test]
fn addition_saturates() {
    let big = MultiDistance::from_tuple(0, 0, 0, u64::MAX - 1);
    let two = MultiDistance::from_tuple(0, 0, 0, 2);
    let top = MultiDistance::from_tuple(0, 0, 0, u64::MAX);
    assert_eq!(big.clone() + two.clone(), top);
    assert_eq!(top.clone() + two.clone(), top);
    assert_eq!(
        (big.clone() + two.clone()) + two.clone(),
        big + (two.clone() + two)
    );
}

#[test]
fn add_to_self_adds_in_place() {
    let mut a = MultiDistance::from_tuple(0, 0, 0, 2);
    a.add_to_self(&MultiDistance::from_tuple(0, 1, 0, 3));
    a.add_to_self(&MultiDistance::from_tuple(0, 0, 0, 5));
    assert_eq!(
        a,
        MultiDistance::from_entries(&vec![(layer(0, 1), 3), (layer(0, 0), 7)])
    );
}

#[test]
fn zero_weights_are_not_stored() {
    let zero = MultiDistance::from_tuple(4, 5, 6, 0);
    assert!(zero.is_zero());
    assert_eq!(zero, MultiDistance::new());
    assert!(zero.entries().is_empty());
    let a = MultiDistance::from_entries(&vec![(layer(0, 0), 0), (layer(1, 1), 2), (layer(1, 1), 3)]);
    assert_eq!(a.entries(), vec![(layer(1, 1), 5)]);
    assert_eq!(a.partial_cmp(&MultiDistance::from_tuple(1, 1, 0, 5)), Some(std::cmp::Ordering::Equal));
}

#[test]
fn comparison_looks_at_the_layers_of_both_sides() {
    let a = MultiDistance::from_tuple(0, 0, 0, 1);
    let b = MultiDistance::from_tuple(1, 1, 0, 1);
    assert!(a.partial_cmp(&b).is_none());
    assert!(b.partial_cmp(&a).is_none());
    let zero = MultiDistance::new();
    assert_eq!(zero.partial_cmp(&a), Some(std::cmp::Ordering::Less));
    assert_eq!(a.partial_cmp(&zero), Some(std::cmp::Ordering::Greater));
    assert_eq!(zero.partial_cmp(&zero), Some(std::cmp::Ordering::Equal));
    assert!(a != b);
}

#[test]
fn multimin_is_an_antichain() {
    let list = vec![
        MultiDistance::from_entries(&vec![(layer(0, 0), 4), (layer(1, 1), 1)]),
        MultiDistance::from_entries(&vec![(layer(0, 0), 1), (layer(1, 1), 4)]),
        MultiDistance::from_entries(&vec![(layer(0, 0), 4), (layer(1, 1), 4)]),
        MultiDistance::from_entries(&vec![(layer(0, 0), 2), (layer(1, 1), 2)]),
        MultiDistance::from_entries(&vec![(layer(0, 0), 1), (layer(1, 1), 4)]),
        MultiDistance::from_entries(&vec![(layer(2, 2), 1)]),
    ];
    let front = multimin(&list);
    assert_eq!(front.len(), 4);
    for (i, a) in front.iter().enumerate() {
        for (j, b) in front.iter().enumerate() {
            if i != j {
                assert!(a.partial_cmp(b).is_none());
            }
        }
    }
    for x in &list {
        assert!(front.iter().any(|m| m <= x));
    }
}

#[test]
fn multimin_is_idempotent() {
    let list = vec![
        MultiDistance::from_entries(&vec![(layer(0, 0), 4), (layer(1, 1), 1)]),
        MultiDistance::from_entries(&vec![(layer(0, 0), 1), (layer(1, 1), 4)]),
        MultiDistance::from_entries(&vec![(layer(0, 0), 4), (layer(1, 1), 4)]),
        MultiDistance::from_entries(&vec![(layer(0, 0), 4), (layer(1, 1), 1)]),
    ];
    let once = multimin(&list);
    let twice = multimin(&once);
    assert_eq!(once, twice);
}

#[test]
fn multimin_keeps_the_last_of_equal_elements() {
    let a = MultiDistance::from_tuple(0, 0, 0, 1);
    let b = MultiDistance::from_tuple(1, 1, 0, 1);
    assert_eq!(
        multimin(&[a.clone(), b.clone(), a.clone()]),
        vec![b.clone(), a.clone()]
    );
    assert_eq!(multimin(&[a.clone(), a.clone()]), vec![a.clone()]);
    assert_eq!(multimin(&[MultiDistance::new(), a, b]), vec![MultiDistance::new()]);
}
