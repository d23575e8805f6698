use metric_backbone::{
    distance_closure, fast_backbone_costa, fast_backbone_simas, is_metric_in_n_steps,
    structural_backbone, EdgeLayerID, MultiDistance, MultidistanceGraph, MultidistanceGraphHashmap,
    NodeID,
};

type Edge = (usize, usize, usize, usize, usize, u64);

const LAYERS: usize = 3;

struct Lcg(u64);

impl Lcg {
    fn next(&mut self, bound: u64) -> u64 {
        self.0 = self
            .0
            .wrapping_mul(6364136223846793005)
            .wrapping_add(1442695040888963407);
        (self.0 >> 33) % bound
    }
}

fn random_edges(seed: u64, nodes: u64, count: usize, loops: bool) -> Vec<Edge> {
    let mut rng = Lcg(seed);
    let mut edges = Vec::new();
    while edges.len() < count {
        let from = rng.next(nodes) as usize;
        let to = rng.next(nodes) as usize;
        if from == to && !loops {
            continue;
        }
        let layer = rng.next(LAYERS as u64) as usize;
        let weight = rng.next(6);
        edges.push((from, to, layer, layer, 0, weight));
    }
    edges
}

/// The edges that stay when later tuples overwrite earlier ones.
fn effective(edges: &[Edge]) -> Vec<(usize, usize, [u64; LAYERS])> {
    let mut out: Vec<(usize, usize, [u64; LAYERS])> = Vec::new();
    for e in edges {
        let mut w = [0; LAYERS];
        w[e.2] = e.5;
        match out.iter_mut().find(|x| x.0 == e.0 && x.1 == e.1) {
            Some(x) => x.2 = w,
            None => out.push((e.0, e.1, w)),
        }
    }
    out
}

fn le(a: &[u64; LAYERS], b: &[u64; LAYERS]) -> bool {
    (0..LAYERS).all(|k| a[k] <= b[k])
}

fn insert_minimal(front: &mut Vec<[u64; LAYERS]>, x: [u64; LAYERS]) -> bool {
    if front.iter().any(|y| le(y, &x)) {
        return false;
    }
    front.retain(|y| !le(&x, y));
    front.push(x);
    true
}

/// The Pareto fronts of the walks from `source`, by relaxing every edge until
/// nothing changes.  `fronts[source]` starts with the empty walk.
fn reference_fronts(
    edges: &[(usize, usize, [u64; LAYERS])],
    nodes: usize,
    source: usize,
) -> Vec<Vec<[u64; LAYERS]>> {
    let mut fronts: Vec<Vec<[u64; LAYERS]>> = vec![Vec::new(); nodes];
    fronts[source].push([0; LAYERS]);
    let mut changed = true;
    while changed {
        changed = false;
        for (u, v, w) in edges {
            let from: Vec<[u64; LAYERS]> = fronts[*u].clone();
            for d in from {
                let mut sum = d;
                for k in 0..LAYERS {
                    sum[k] += w[k];
                }
                if insert_minimal(&mut fronts[*v], sum) {
                    changed = true;
                }
            }
        }
    }
    fronts
}

fn as_array(d: &MultiDistance) -> [u64; LAYERS] {
    let mut out = [0; LAYERS];
    for (k, slot) in out.iter_mut().enumerate() {
        *slot = d.get(&EdgeLayerID {
            layer_start: k,
            layer_end: k,
            layer_weight_index: 0,
        });
    }
    out
}

fn edges_of(graph: &MultidistanceGraphHashmap) -> Vec<(usize, usize)> {
    let mut edges = Vec::new();
    for node in graph.nodes() {
        for (target, _) in graph.neighbor_edges(&node) {
            edges.push((node.0, target.0));
        }
    }
    edges.sort();
    edges
}

#[test]
fn closure_is_the_set_of_pareto_fronts() {
    for seed in 0..40 {
        let nodes = 6;
        let edges = random_edges(seed, nodes, 14, true);
        let kept = effective(&edges);
        let closure = distance_closure(&edges);
        for source in 0..nodes as usize {
            let is_node = kept.iter().any(|e| e.0 == source || e.1 == source);
            assert_eq!(closure.contains_key(&source), is_node);
            if !is_node {
                continue;
            }
            let reference = reference_fronts(&kept, nodes as usize, source);
            for target in 0..nodes as usize {
                let found = closure[&source].get(&target);
                if target == source || reference[target].is_empty() {
                    assert!(found.is_none());
                    continue;
                }
                let mut got: Vec<[u64; LAYERS]> = found.unwrap().iter().map(as_array).collect();
                let mut want = reference[target].clone();
                got.sort();
                want.sort();
                assert_eq!(got, want);
            }
        }
    }
}

#[test]
fn oracle_agrees_with_the_pareto_fronts() {
    for seed in 100..130 {
        let nodes = 5;
        let edges = random_edges(seed, nodes, 11, true);
        let kept = effective(&edges);
        let graph = MultidistanceGraphHashmap::from_tuple_edge_list(&edges);
        for (u, v, w) in &kept {
            let reference = reference_fronts(&kept, nodes as usize, *u);
            let metric = reference[*v].contains(w);
            assert_eq!(
                is_metric_in_n_steps(&graph, NodeID(*u), NodeID(*v), None),
                Ok(metric)
            );
        }
        for u in 0..nodes as usize {
            for v in 0..nodes as usize {
                if !kept.iter().any(|e| e.0 == u && e.1 == v) {
                    assert!(is_metric_in_n_steps(&graph, NodeID(u), NodeID(v), None).is_err());
                }
            }
        }
    }
}

#[test]
fn backbones_agree_without_loops() {
    for seed in 200..240 {
        let edges = random_edges(seed, 7, 18, false);
        let kept = effective(&edges);
        let mut by_naive = MultidistanceGraphHashmap::from_tuple_edge_list(&edges);
        structural_backbone(&mut by_naive, None);
        let mut by_costa = MultidistanceGraphHashmap::from_tuple_edge_list(&edges);
        fast_backbone_costa(&mut by_costa);
        let mut by_simas = MultidistanceGraphHashmap::from_tuple_edge_list(&edges);
        fast_backbone_simas(&mut by_simas);
        let mut want = Vec::new();
        for (u, v, w) in &kept {
            let reference = reference_fronts(&kept, 7, *u);
            if reference[*v].contains(w) {
                want.push((*u, *v));
            }
        }
        want.sort();
        assert_eq!(edges_of(&by_naive), want);
        assert_eq!(edges_of(&by_costa), want);
        assert_eq!(edges_of(&by_simas), want);
        for (u, v) in &want {
            let weight = kept.iter().find(|e| e.0 == *u && e.1 == *v).unwrap().2;
            assert_eq!(
                as_array(by_costa.edge_weight(NodeID(*u), NodeID(*v)).unwrap()),
                weight
            );
        }
    }
}

#[test]
fn backbones_agree_between_different_nodes() {
    for seed in 300..330 {
        let edges = random_edges(seed, 5, 14, true);
        let mut by_naive = MultidistanceGraphHashmap::from_tuple_edge_list(&edges);
        structural_backbone(&mut by_naive, None);
        let mut by_costa = MultidistanceGraphHashmap::from_tuple_edge_list(&edges);
        fast_backbone_costa(&mut by_costa);
        let mut by_simas = MultidistanceGraphHashmap::from_tuple_edge_list(&edges);
        fast_backbone_simas(&mut by_simas);
        let proper = |list: Vec<(usize, usize)>| -> Vec<(usize, usize)> {
            list.into_iter().filter(|e| e.0 != e.1).collect()
        };
        let naive = proper(edges_of(&by_naive));
        assert_eq!(proper(edges_of(&by_costa)), naive);
        assert_eq!(proper(edges_of(&by_simas)), naive);
    }
}
