//! The oracle that tells whether an edge is metric.
use crate::multidistance::NodeID;
use crate::multigraph::MultidistanceGraph;
use crate::pareto::front_contains;
use crate::search::lemma_result_metric;
use crate::shortest_paths::{
    fronts_model, hop_cap, parteto_shortest_distance_from_source, search_task,
};
use crate::walks::{goes, is_metric_edge, lemma_trivial_walk, walk_weight, within};
use crate::weights::{weights_lt, weights_zero};
use vstd::prelude::*;

verus! {

/// The pair of nodes asked about is not an edge of the graph.
#[derive(Clone, Copy, PartialEq, Eq, Debug, Structural)]
pub struct MissingEdgeError {
    pub source: NodeID,
    pub target: NodeID,
}

/// A loop is metric exactly when its weight is zero: the walk that stays at
/// the node has weight zero.
pub proof fn lemma_loop_metric(g: crate::multigraph::GraphModel, u: usize, bound: Option<nat>)
    requires
        g.wf(),
        g.has_edge(u, u),
    ensures
        is_metric_edge(g, u, u, bound) == (g.weight(u, u) == weights_zero()),
{
    let w = g.weight(u, u);
    lemma_trivial_walk(g, u);
    assert(g.edges.dom().contains((u, u)));
    assert(goes(g, seq![u], u, u) && within(seq![u], bound));
    if w == weights_zero() {
        assert(forall|p: Seq<usize>| !weights_lt(walk_weight(g, p), w));
    } else {
        if crate::weights::weights_le(w, weights_zero()) {
            crate::weights::lemma_zero_least(w);
            crate::weights::lemma_le_antisymmetric(w, weights_zero());
        }
        assert(weights_lt(walk_weight(g, seq![u]), w));
    }
}

/// Whether the edge from `source` to `target` is metric within `n_steps`
/// hops: whether the Pareto front of the walks from `source` to `target` of at
/// most `n_steps` edges holds the weight of the edge.  Fails where the graph
/// has no such edge.
pub fn is_metric_in_n_steps<G: MultidistanceGraph>(
    graph: &G,
    source: NodeID,
    target: NodeID,
    n_steps: Option<usize>,
) -> (r: Result<bool, MissingEdgeError>)
    requires
        graph.inv(),
    ensures
        match r {
            Ok(metric) => graph.model().has_edge(source.0, target.0) && metric == is_metric_edge(
                graph.model(),
                source.0,
                target.0,
                hop_cap(n_steps),
            ),
            Err(e) => !graph.model().has_edge(source.0, target.0) && e == (MissingEdgeError {
                source,
                target,
            }),
        },
{
    broadcast use vstd::std_specs::hash::group_hash_axioms;

    proof {
        graph.lemma_model_wf();
    }
    let test_edge_weight = match graph.edge_weight(source, target) {
        Some(weight) => weight.clone(),
        None => {
            return Err(MissingEdgeError { source, target });
        },
    };
    if source == target {
        proof {
            lemma_loop_metric(graph.model(), source.0, hop_cap(n_steps));
        }
        return Ok(test_edge_weight.is_zero());
    }
    let shortest_dists = parteto_shortest_distance_from_source(
        source,
        graph,
        n_steps,
        Some((&target, &test_edge_weight)),
    );
    proof {
        let t = search_task(graph.model(), source, n_steps, Some((&target, &test_edge_weight)));
        lemma_result_metric(t, fronts_model(shortest_dists@), target.0);
    }
    match shortest_dists.get(&target.0) {
        Some(dist_to_target) => Ok(front_contains(dist_to_target, &test_edge_weight)),
        None => Ok(false),
    }
}

} // verus!
