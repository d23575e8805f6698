//! The three ways of extracting the backbone of a graph.
use crate::bfs_tools::is_metric_in_n_steps;
use crate::multidistance::{MultiDistance, NodeID};
use crate::multigraph::{is_node_list, is_out_edges, GraphModel, MultidistanceGraph};
use crate::parallel::par_map;
use crate::closure::{closure_model, is_closure, multidistance_closure, plain_task};
use crate::multigraph::{graph_of_tuples, tuple_weight, MultidistanceGraphHashmap};
use crate::pareto::{clone_front, front_contains, occurs};
use crate::weights::Weights;
use crate::edge_lists::{contains_pair, flatten};
use crate::detours::{
    as_short, lemma_as_short_reflexive, lemma_as_short_transitive, lemma_beaten_alike,
    lemma_remove_keeps_short,
};
use crate::pareto::front_beats;
use crate::search::lemma_result_beats;
use crate::seeding::{known_targets, one_step_metric_edges, two_step_metric_edges};
use crate::shortest_paths::{
    fronts_model, hop_cap, parteto_shortest_distance_from_source, search_task,
};
use crate::walks::{is_metric_edge, strictly_beaten};
use std::collections::HashMap;
use vstd::prelude::*;

verus! {

/// For every edge that stays, the Pareto front between its ends.
pub type MultilayerBackbone = HashMap<usize, HashMap<usize, Vec<MultiDistance>>>;

/// The graph without the edges in `gone`; the nodes stay.
pub open spec fn without_edges(g: GraphModel, gone: Set<(usize, usize)>) -> GraphModel {
    GraphModel { nodes: g.nodes, edges: g.edges.remove_keys(gone) }
}

/// The pairs of node numbers that the list holds.
pub open spec fn listed(edges: Seq<(NodeID, NodeID)>) -> Set<(usize, usize)> {
    Set::new(|e: (usize, usize)| edges.contains((NodeID(e.0), NodeID(e.1))))
}

/// The structural backbone within the bound: the graph with its metric edges
/// only.
pub open spec fn structural_backbone_model(g: GraphModel, bound: Option<nat>) -> GraphModel {
    GraphModel {
        nodes: g.nodes,
        edges: g.edges.restrict(Set::new(|e: (usize, usize)| is_metric_edge(g, e.0, e.1, bound))),
    }
}

/// `r` holds the edges of the graph that are not known to be metric and are
/// not metric within the bound.
pub open spec fn is_semimetric_list(
    g: GraphModel,
    known: Seq<(NodeID, NodeID)>,
    bound: Option<nat>,
    r: Seq<(NodeID, NodeID)>,
) -> bool {
    forall|e: (NodeID, NodeID)| #[trigger]
        r.contains(e) <==> g.has_edge(e.0.0, e.1.0) && !known.contains(e) && !is_metric_edge(
            g,
            e.0.0,
            e.1.0,
            bound,
        )
}

/// `r` holds the edges from `source` that are not known to be metric and are
/// not metric within the bound.
pub open spec fn is_semimetric_list_from(
    g: GraphModel,
    source: NodeID,
    known: Seq<(NodeID, NodeID)>,
    bound: Option<nat>,
    r: Seq<(NodeID, NodeID)>,
) -> bool {
    forall|e: (NodeID, NodeID)| #[trigger]
        r.contains(e) <==> e.0 == source && g.has_edge(e.0.0, e.1.0) && !known.contains(e)
            && !is_metric_edge(g, e.0.0, e.1.0, bound)
}

/// The edges from `source` that are not in `known` and that the oracle does
/// not find metric within `n_steps` hops.
fn semimetric_edges_from<G: MultidistanceGraph>(
    graph: &G,
    source: NodeID,
    known: &Vec<(NodeID, NodeID)>,
    n_steps: Option<usize>,
) -> (r: Vec<(NodeID, NodeID)>)
    requires
        graph.inv(),
    ensures
        is_semimetric_list_from(graph.model(), source, known@, hop_cap(n_steps), r@),
{
    let neighbors = graph.neighbor_edges(&source);
    let mut r: Vec<(NodeID, NodeID)> = Vec::new();
    let ghost g = graph.model();
    let ghost bound = hop_cap(n_steps);
    let mut j: usize = 0;
    while j < neighbors.len()
        invariant
            j <= neighbors.len(),
            graph.inv(),
            g == graph.model(),
            bound == hop_cap(n_steps),
            is_out_edges(g, source.0, neighbors@),
            forall|e: (NodeID, NodeID)| #[trigger]
                r@.contains(e) <==> e.0 == source && (exists|k: int|
                    0 <= k < j && (#[trigger] neighbors@[k]).0 == e.1) && !known@.contains(e)
                    && !is_metric_edge(g, e.0.0, e.1.0, bound),
        decreases neighbors.len() - j,
    {
        let target = neighbors[j].0;
        let metric = match is_metric_in_n_steps(graph, source, target, n_steps) {
            Ok(m) => m,
            Err(_) => false,
        };
        let ghost before = r@;
        if !contains_pair(known, source, target) && !metric {
            r.push((source, target));
        }
        proof {
            assert forall|e: (NodeID, NodeID)| #[trigger]
                r@.contains(e) <==> e.0 == source && (exists|k: int|
                    0 <= k < j + 1 && (#[trigger] neighbors@[k]).0 == e.1) && !known@.contains(e)
                    && !is_metric_edge(g, e.0.0, e.1.0, bound) by {
                if r@.contains(e) {
                    let i = choose|i: int| 0 <= i < r@.len() && r@[i] == e;
                    if i < before.len() {
                        assert(before[i] == e);
                        assert(before.contains(e));
                        let k = choose|k: int| 0 <= k < j && (#[trigger] neighbors@[k]).0 == e.1;
                        assert(neighbors@[k].0 == e.1);
                    } else {
                        assert(neighbors@[j as int].0 == e.1);
                    }
                }
                if e.0 == source && (exists|k: int|
                    0 <= k < j + 1 && (#[trigger] neighbors@[k]).0 == e.1) && !known@.contains(e)
                    && !is_metric_edge(g, e.0.0, e.1.0, bound) {
                    let k = choose|k: int| 0 <= k < j + 1 && (#[trigger] neighbors@[k]).0 == e.1;
                    if k < j {
                        assert(before.contains(e));
                        let i = choose|i: int| 0 <= i < before.len() && before[i] == e;
                        assert(r@[i] == e);
                    } else {
                        assert(e == (source, target));
                        assert(r@[r@.len() - 1] == e);
                    }
                }
            }
        }
        j += 1;
    }
    proof {
        assert forall|e: (NodeID, NodeID)| #[trigger]
            r@.contains(e) <==> e.0 == source && g.has_edge(e.0.0, e.1.0) && !known@.contains(e)
                && !is_metric_edge(g, e.0.0, e.1.0, bound) by {
            if r@.contains(e) {
                let k = choose|k: int|
                    0 <= k < neighbors@.len() && (#[trigger] neighbors@[k]).0 == e.1;
                assert(g.has_edge(source.0, neighbors@[k].0.0));
            }
            if e.0 == source && g.has_edge(e.0.0, e.1.0) {
                let k = choose|k: int|
                    0 <= k < neighbors@.len() && (#[trigger] neighbors@[k]).0 == NodeID(e.1.0);
                assert(neighbors@[k].0 == e.1);
            }
        }
    }
    r
}

/// The edges of the graph that are not in `known` and that the oracle does
/// not find metric within `n_steps` hops; the sources are examined in
/// parallel.
fn detect_semimetric<G: MultidistanceGraph + Sync>(
    graph: &G,
    known: &Vec<(NodeID, NodeID)>,
    n_steps: Option<usize>,
) -> (r: Vec<(NodeID, NodeID)>)
    requires
        graph.inv(),
    ensures
        is_semimetric_list(graph.model(), known@, hop_cap(n_steps), r@),
{
    let nodes = graph.nodes();
    let examine = |source: &NodeID| -> (found: Vec<(NodeID, NodeID)>)
        requires
            graph.inv(),
        ensures
            is_semimetric_list_from(graph.model(), *source, known@, hop_cap(n_steps), found@),
        { semimetric_edges_from(graph, *source, known, n_steps) };
    let lists = par_map(&nodes, examine);
    let r = flatten(&lists);
    proof {
        let g = graph.model();
        graph.lemma_model_wf();
        assert forall|e: (NodeID, NodeID)| #[trigger]
            r@.contains(e) <==> g.has_edge(e.0.0, e.1.0) && !known@.contains(e) && !is_metric_edge(
                g,
                e.0.0,
                e.1.0,
                hop_cap(n_steps),
            ) by {
            if r@.contains(e) {
                let i = choose|i: int| 0 <= i < lists@.len() && (#[trigger] lists@[i])@.contains(e);
                assert(is_semimetric_list_from(g, nodes@[i], known@, hop_cap(n_steps), lists@[i]@));
            }
            if g.has_edge(e.0.0, e.1.0) && !known@.contains(e) && !is_metric_edge(
                g,
                e.0.0,
                e.1.0,
                hop_cap(n_steps),
            ) {
                assert(g.edges.dom().contains((e.0.0, e.1.0)));
                assert(g.nodes.contains(e.0.0));
                assert(nodes@.contains(NodeID(e.0.0)));
                let i = choose|i: int| 0 <= i < nodes@.len() && nodes@[i] == NodeID(e.0.0);
                assert(is_semimetric_list_from(g, nodes@[i], known@, hop_cap(n_steps), lists@[i]@));
                assert(lists@[i]@.contains(e));
            }
        }
    }
    r
}

/// Removes the edges of the list from the graph.
fn remove_edges<G: MultidistanceGraph>(graph: &mut G, edges: &Vec<(NodeID, NodeID)>)
    requires
        old(graph).inv(),
    ensures
        final(graph).inv(),
        final(graph).model() == without_edges(old(graph).model(), listed(edges@)),
{
    let ghost g0 = graph.model();
    let mut k: usize = 0;
    proof {
        assert(listed(edges@.take(0)) =~= Set::<(usize, usize)>::empty());
        assert(g0.edges.remove_keys(Set::<(usize, usize)>::empty()) =~= g0.edges);
    }
    while k < edges.len()
        invariant
            k <= edges.len(),
            graph.inv(),
            graph.model() == without_edges(g0, listed(edges@.take(k as int))),
        decreases edges.len() - k,
    {
        let (u, v) = edges[k];
        let ghost before = graph.model();
        graph.remove_edge(u, v);
        proof {
            let done_list = edges@.take(k as int);
            let next_list = edges@.take(k + 1);
            let done = listed(done_list);
            let next = listed(next_list);
            assert forall|e: (usize, usize)| next.contains(e) <==> done.contains(e) || e == (
                u.0,
                v.0,
            ) by {
                let pair = (NodeID(e.0), NodeID(e.1));
                if next.contains(e) {
                    let i = choose|i: int| 0 <= i < next_list.len() && next_list[i] == pair;
                    if i < k {
                        assert(done_list[i] == pair);
                    }
                }
                if done.contains(e) {
                    let i = choose|i: int| 0 <= i < done_list.len() && done_list[i] == pair;
                    assert(next_list[i] == pair);
                }
                if e == (u.0, v.0) {
                    assert(next_list[k as int] == pair);
                }
            }
            assert(before.edges.remove((u.0, v.0)) =~= g0.edges.remove_keys(next));
        }
        k += 1;
    }
    proof {
        assert(edges@.take(edges.len() as int) == edges@);
    }
}

/// Reduces the graph to its structural backbone within `n_steps` hops: every
/// edge that the oracle does not find metric is removed, and nothing else
/// changes.  Without a cap on the hops this is the full structural backbone.
pub fn structural_backbone<G: MultidistanceGraph + Sync>(graph: &mut G, n_steps: Option<usize>)
    requires
        old(graph).inv(),
    ensures
        final(graph).inv(),
        final(graph).model() == structural_backbone_model(old(graph).model(), hop_cap(n_steps)),
{
    let ghost g0 = graph.model();
    let known: Vec<(NodeID, NodeID)> = Vec::new();
    let semimetric_edges = detect_semimetric(&*graph, &known, n_steps);
    remove_edges(graph, &semimetric_edges);
    proof {
        let gone = listed(semimetric_edges@);
        let metric = Set::new(|e: (usize, usize)| is_metric_edge(g0, e.0, e.1, hop_cap(n_steps)));
        assert forall|e: (usize, usize)| g0.edges.dom().contains(e) implies (gone.contains(e)
            <==> !metric.contains(e)) by {
            let pair = (NodeID(e.0), NodeID(e.1));
            assert(semimetric_edges@.contains(pair) <==> g0.has_edge(pair.0.0, pair.1.0)
                && !known@.contains(pair) && !is_metric_edge(
                g0,
                pair.0.0,
                pair.1.0,
                hop_cap(n_steps),
            ));
        }
        assert(g0.edges.remove_keys(gone) =~= g0.edges.restrict(metric));
    }
}

/// The graph without the edges between different nodes that some walk is
/// strictly below.
pub open spec fn costa_backbone_model(g: GraphModel) -> GraphModel {
    GraphModel {
        nodes: g.nodes,
        edges: g.edges.restrict(
            Set::new(|e: (usize, usize)| e.0 == e.1 || !strictly_beaten(g, e.0, e.1, None)),
        ),
    }
}

/// The edges that leave `source`.
pub open spec fn edges_from(source: usize) -> Set<(usize, usize)> {
    Set::new(|e: (usize, usize)| e.0 == source)
}

/// The edges that leave one of the first `i` nodes of the list.
pub open spec fn edges_from_first(nodes: Seq<NodeID>, i: int) -> Set<(usize, usize)> {
    Set::new(|e: (usize, usize)| exists|k: int| 0 <= k < i && (#[trigger] nodes[k]).0 == e.0)
}

/// The edges from `source` to one of the first `j` neighbours of the list.
pub open spec fn edges_to_first(
    source: usize,
    nbrs: Seq<(NodeID, MultiDistance)>,
    j: int,
) -> Set<(usize, usize)> {
    Set::new(
        |e: (usize, usize)|
            e.0 == source && exists|k: int| 0 <= k < j && (#[trigger] nbrs[k]).0.0 == e.1,
    )
}

/// `h` is what is left of `g` once the edges in `done` have been examined:
/// a subgraph that is as short, from which exactly the examined edges between
/// different nodes that some walk of `g` is strictly below are gone.
pub open spec fn pruned_so_far(g: GraphModel, h: GraphModel, done: Set<(usize, usize)>) -> bool {
    &&& h.nodes == g.nodes
    &&& h.subgraph_of(g)
    &&& as_short(h, g)
    &&& forall|e: (usize, usize)|
        #![trigger h.edges.dom().contains(e)]
        h.edges.dom().contains(e) <==> g.edges.dom().contains(e) && !(done.contains(e) && e.0
            != e.1 && strictly_beaten(g, e.0, e.1, None))
}

/// Examines the edges that leave `source`: removes each one to a different
/// node that the front of its end, as the search from `source` finds it,
/// strictly beats.
fn prune_from_source<G: MultidistanceGraph>(
    graph: &mut G,
    source: NodeID,
    Ghost(g0): Ghost<GraphModel>,
    Ghost(done): Ghost<Set<(usize, usize)>>,
)
    requires
        old(graph).inv(),
        g0.wf(),
        pruned_so_far(g0, old(graph).model(), done),
        forall|e: (usize, usize)| e.0 == source.0 ==> !done.contains(e),
    ensures
        final(graph).inv(),
        pruned_so_far(g0, final(graph).model(), done.union(edges_from(source.0))),
{
    broadcast use vstd::std_specs::hash::group_hash_axioms;

    let ghost hs = graph.model();
    let distances = parteto_shortest_distance_from_source(source, &*graph, None, None);
    let neighbors = graph.neighbor_edges(&source);
    let ghost t = plain_task(hs, source.0);
    proof {
        graph.lemma_model_wf();
        assert(search_task(hs, source, None, None) == t);
        assert(done.union(edges_to_first(source.0, neighbors@, 0)) =~= done);
    }
    let mut j: usize = 0;
    while j < neighbors.len()
        invariant
            j <= neighbors.len(),
            graph.inv(),
            g0.wf(),
            hs.wf(),
            hs.subgraph_of(g0),
            as_short(hs, g0),
            graph.model().subgraph_of(hs),
            is_out_edges(hs, source.0, neighbors@),
            crate::search::is_search_result(t, fronts_model(distances@)),
            t == plain_task(hs, source.0),
            forall|e: (usize, usize)| e.0 == source.0 ==> !done.contains(e),
            pruned_so_far(
                g0,
                graph.model(),
                done.union(edges_to_first(source.0, neighbors@, j as int)),
            ),
        decreases neighbors.len() - j,
    {
        let target = neighbors[j].0;
        let ghost h = graph.model();
        let ghost e = (source.0, target.0);
        let ghost before = done.union(edges_to_first(source.0, neighbors@, j as int));
        let ghost after = done.union(edges_to_first(source.0, neighbors@, j + 1));
        let beaten = match distances.get(&target.0) {
            Some(distances_to_target) => front_beats(distances_to_target, &neighbors[j].1),
            None => false,
        };
        proof {
            assert(hs.has_edge(source.0, target.0));
            assert(hs.edges.dom().contains(e));
            lemma_result_beats(t, fronts_model(distances@), target.0);
            lemma_beaten_alike(hs, g0, source.0, target.0);
            assert(beaten == (e.0 != e.1 && strictly_beaten(g0, e.0, e.1, None)));
            // The edge has not been examined yet, so it is still there.
            assert(!before.contains(e)) by {
                if edges_to_first(source.0, neighbors@, j as int).contains(e) {
                    let k = choose|k: int| 0 <= k < j && (#[trigger] neighbors@[k]).0.0 == e.1;
                    assert(neighbors@[k].0 != neighbors@[j as int].0);
                }
            }
            assert(h.edges.dom().contains(e));
            assert forall|x: (usize, usize)| after.contains(x) <==> before.contains(x) || x == e by {
                if edges_to_first(source.0, neighbors@, j + 1).contains(x) {
                    let k = choose|k: int| 0 <= k < j + 1 && (#[trigger] neighbors@[k]).0.0 == x.1;
                    if k < j {
                        assert(edges_to_first(source.0, neighbors@, j as int).contains(x));
                    }
                }
                if edges_to_first(source.0, neighbors@, j as int).contains(x) {
                    let k = choose|k: int| 0 <= k < j && (#[trigger] neighbors@[k]).0.0 == x.1;
                    assert(neighbors@[k].0.0 == x.1);
                }
                if x == e {
                    assert(neighbors@[j as int].0.0 == x.1);
                }
            }
        }
        if beaten {
            proof {
                lemma_beaten_alike(h, g0, source.0, target.0);
                lemma_remove_keeps_short(h, source.0, target.0);
                lemma_as_short_transitive(h.without_edge(source.0, target.0), h, g0);
            }
            graph.remove_edge(source, target);
        }
        j += 1;
    }
    proof {
        let h = graph.model();
        let inner = done.union(edges_to_first(source.0, neighbors@, neighbors@.len() as int));
        let outer = done.union(edges_from(source.0));
        assert forall|e: (usize, usize)|
            #![trigger h.edges.dom().contains(e)]
            h.edges.dom().contains(e) <==> g0.edges.dom().contains(e) && !(outer.contains(e) && e.0
                != e.1 && strictly_beaten(g0, e.0, e.1, None)) by {
            if g0.edges.dom().contains(e) && e.0 == source.0 {
                assert(hs.edges.dom().contains(e));
                assert(hs.has_edge(source.0, e.1));
                let k = choose|k: int|
                    0 <= k < neighbors@.len() && (#[trigger] neighbors@[k]).0 == NodeID(e.1);
                assert(neighbors@[k].0.0 == e.1);
                assert(inner.contains(e));
            }
        }
    }
}

/// Removes every edge between different nodes that some walk is strictly
/// below, and nothing else.  The nodes are examined one after the other,
/// each against the Pareto fronts of the walks that leave it.
pub fn fast_backbone_costa<G: MultidistanceGraph + Sync>(graph: &mut G)
    requires
        old(graph).inv(),
    ensures
        final(graph).inv(),
        final(graph).model() == costa_backbone_model(old(graph).model()),
{
    let ghost g0 = graph.model();
    let nodes = graph.nodes();
    proof {
        graph.lemma_model_wf();
        lemma_as_short_reflexive(g0);
        assert(edges_from_first(nodes@, 0) =~= Set::<(usize, usize)>::empty());
    }
    let mut i: usize = 0;
    while i < nodes.len()
        invariant
            i <= nodes.len(),
            graph.inv(),
            g0.wf(),
            is_node_list(g0, nodes@),
            pruned_so_far(g0, graph.model(), edges_from_first(nodes@, i as int)),
        decreases nodes.len() - i,
    {
        let source = nodes[i];
        proof {
            assert forall|e: (usize, usize)| e.0 == source.0 implies !edges_from_first(
                nodes@,
                i as int,
            ).contains(e) by {
                if edges_from_first(nodes@, i as int).contains(e) {
                    let k = choose|k: int| 0 <= k < i && (#[trigger] nodes@[k]).0 == e.0;
                    assert(nodes@[k] == nodes@[i as int]);
                }
            }
        }
        prune_from_source(graph, source, Ghost(g0), Ghost(edges_from_first(nodes@, i as int)));
        proof {
            let inner = edges_from_first(nodes@, i as int).union(edges_from(source.0));
            let next = edges_from_first(nodes@, i + 1);
            assert forall|e: (usize, usize)| inner.contains(e) <==> next.contains(e) by {
                if edges_from_first(nodes@, i as int).contains(e) {
                    let k = choose|k: int| 0 <= k < i && (#[trigger] nodes@[k]).0 == e.0;
                    assert(nodes@[k].0 == e.0);
                }
                if e.0 == source.0 {
                    assert(nodes@[i as int].0 == e.0);
                }
                if next.contains(e) {
                    let k = choose|k: int| 0 <= k < i + 1 && (#[trigger] nodes@[k]).0 == e.0;
                    if k < i {
                        assert(edges_from_first(nodes@, i as int).contains(e));
                    }
                }
            }
            assert(inner =~= next);
        }
        i += 1;
    }
    proof {
        let h = graph.model();
        let all = edges_from_first(nodes@, nodes@.len() as int);
        let kept = Set::new(
            |e: (usize, usize)| e.0 == e.1 || !strictly_beaten(g0, e.0, e.1, None),
        );
        assert forall|e: (usize, usize)| g0.edges.dom().contains(e) implies all.contains(e) by {
            assert(g0.nodes.contains(e.0));
            assert(nodes@.contains(NodeID(e.0)));
            let k = choose|k: int| 0 <= k < nodes@.len() && nodes@[k] == NodeID(e.0);
            assert(nodes@[k].0 == e.0);
        }
        assert(h.edges =~= g0.edges.restrict(kept));
    }
}

/// The graph with its metric edges and with the edges that the two steps of
/// seeding take for metric.
pub open spec fn simas_backbone_model(g: GraphModel) -> GraphModel {
    GraphModel {
        nodes: g.nodes,
        edges: g.edges.restrict(
            Set::new(
                |e: (usize, usize)|
                    is_metric_edge(g, e.0, e.1, None) || known_targets(g, e.0).contains(e.1),
            ),
        ),
    }
}

/// Removes every edge that is not metric, sparing the search for the edges
/// that seeding shows to be metric: the edges that are minimal among the
/// edges from their source, and those that rounds of promotion add to them.
/// Of the edges between different nodes exactly the metric ones stay.
pub fn fast_backbone_simas<G: MultidistanceGraph + Sync>(graph: &mut G)
    requires
        old(graph).inv(),
    ensures
        final(graph).inv(),
        final(graph).model() == simas_backbone_model(old(graph).model()),
{
    let ghost g0 = graph.model();
    let mut known_metric_edges = one_step_metric_edges(&*graph);
    two_step_metric_edges(&*graph, &mut known_metric_edges);
    let semimetric_edges = detect_semimetric(&*graph, &known_metric_edges, None);
    remove_edges(graph, &semimetric_edges);
    proof {
        let gone = listed(semimetric_edges@);
        let kept = Set::new(
            |e: (usize, usize)|
                is_metric_edge(g0, e.0, e.1, None) || known_targets(g0, e.0).contains(e.1),
        );
        assert forall|e: (usize, usize)| g0.edges.dom().contains(e) implies (gone.contains(e)
            <==> !kept.contains(e)) by {
            let pair = (NodeID(e.0), NodeID(e.1));
            assert(semimetric_edges@.contains(pair) <==> g0.has_edge(pair.0.0, pair.1.0)
                && !known_metric_edges@.contains(pair) && !is_metric_edge(
                g0,
                pair.0.0,
                pair.1.0,
                hop_cap(None),
            ));
            assert(known_metric_edges@.contains(pair) <==> known_targets(g0, pair.0.0).contains(
                pair.1.0,
            ));
        }
        assert(g0.edges.remove_keys(gone) =~= g0.edges.restrict(kept));
    }
}

/// An edge is metric, without a cap on the hops, exactly when no walk is
/// strictly below it.
pub proof fn lemma_metric_unless_beaten(g: GraphModel, u: usize, v: usize)
    requires
        g.has_edge(u, v),
    ensures
        is_metric_edge(g, u, v, None) == !strictly_beaten(g, u, v, None),
{
    crate::walks::lemma_edge_walk(g, u, v);
    assert(crate::walks::goes(g, seq![u, v], u, v) && crate::walks::within(seq![u, v], None));
}

/// Each of the three backbones is a subgraph of the graph: it has the nodes
/// of the graph, and every edge of it is an edge of the graph with the same
/// weight.
pub proof fn lemma_backbones_are_subgraphs(g: GraphModel, bound: Option<nat>)
    ensures
        structural_backbone_model(g, bound).subgraph_of(g),
        costa_backbone_model(g).subgraph_of(g),
        simas_backbone_model(g).subgraph_of(g),
{
}

/// Between different nodes the three backbones have the same edges: the
/// metric ones.
pub proof fn lemma_backbones_agree(g: GraphModel, u: usize, v: usize)
    requires
        g.wf(),
        u != v,
    ensures
        structural_backbone_model(g, None).has_edge(u, v) == is_metric_edge(g, u, v, None),
        costa_backbone_model(g).has_edge(u, v) == is_metric_edge(g, u, v, None),
        simas_backbone_model(g).has_edge(u, v) == is_metric_edge(g, u, v, None),
{
    if g.has_edge(u, v) {
        lemma_metric_unless_beaten(g, u, v);
    }
    if known_targets(g, u).contains(v) {
        crate::seeding::lemma_known_targets_metric(g, u, v);
    }
}

/// In a graph in which every loop has weight zero, the three backbones are
/// the same graph.
pub proof fn lemma_backbones_equal(g: GraphModel)
    requires
        g.wf(),
        forall|u: usize| #[trigger] g.has_edge(u, u) ==> g.weight(u, u) == crate::weights::weights_zero(),
    ensures
        structural_backbone_model(g, None) == costa_backbone_model(g),
        structural_backbone_model(g, None) == simas_backbone_model(g),
{
    let naive = structural_backbone_model(g, None);
    let costa = costa_backbone_model(g);
    let simas = simas_backbone_model(g);
    assert forall|e: (usize, usize)| g.edges.dom().contains(e) implies (is_metric_edge(
        g,
        e.0,
        e.1,
        None,
    ) <==> e.0 == e.1 || !strictly_beaten(g, e.0, e.1, None)) && (known_targets(g, e.0).contains(
        e.1,
    ) ==> is_metric_edge(g, e.0, e.1, None)) by {
        assert(g.has_edge(e.0, e.1));
        lemma_metric_unless_beaten(g, e.0, e.1);
        if e.0 == e.1 {
            crate::bfs_tools::lemma_loop_metric(g, e.0, None);
        } else if known_targets(g, e.0).contains(e.1) {
            crate::seeding::lemma_known_targets_metric(g, e.0, e.1);
        }
    }
    assert(naive.edges =~= costa.edges);
    assert(naive.edges =~= simas.edges);
}

/// Some edge tuple from `u` to `v` has a weight that the front of the closure
/// from `u` to `v` holds.
pub open spec fn tuple_kept(
    edges: Seq<(usize, usize, usize, usize, usize, u64)>,
    c: Map<usize, Map<usize, Seq<Weights>>>,
    n: int,
    u: usize,
    v: usize,
) -> bool {
    exists|i: int|
        0 <= i < n && (#[trigger] edges[i]).0 == u && edges[i].1 == v && c.dom().contains(u)
            && c[u].dom().contains(v) && occurs(c[u][v], tuple_weight(edges[i]))
}

/// `r` is the multilayer backbone of the first `n` edge tuples against the
/// closure `c`: it holds a pair of nodes exactly when some tuple between them
/// is kept, with the front of the closure between them.
pub open spec fn is_backbone_of(
    edges: Seq<(usize, usize, usize, usize, usize, u64)>,
    c: Map<usize, Map<usize, Seq<Weights>>>,
    n: int,
    r: Map<usize, Map<usize, Seq<Weights>>>,
) -> bool {
    &&& forall|u: usize|
        r.dom().contains(u) <==> exists|v: usize| #[trigger] tuple_kept(edges, c, n, u, v)
    &&& forall|u: usize, v: usize|
        #![trigger r[u].dom().contains(v)]
        r.dom().contains(u) ==> (r[u].dom().contains(v) <==> tuple_kept(edges, c, n, u, v))
    &&& forall|u: usize, v: usize|
        #![trigger r[u][v]]
        r.dom().contains(u) && r[u].dom().contains(v) ==> r[u][v] == c[u][v]
}

/// The multilayer backbone of a list of `(source, target, layer_start,
/// layer_end, layer_weight_index, weight)`: an edge stays exactly when its
/// weight is an element of the Pareto front between its ends in the closure
/// of the graph of the list, and what is returned for it is that front.
pub fn multilayer_backbone(edges: &[(usize, usize, usize, usize, usize, u64)]) -> (r:
    MultilayerBackbone)
    ensures
        exists|c: Map<usize, Map<usize, Seq<Weights>>>|
            is_closure(graph_of_tuples(edges@), c) && #[trigger] is_backbone_of(
                edges@,
                c,
                edges@.len() as int,
                closure_model(r@),
            ),
{
    broadcast use vstd::std_specs::hash::group_hash_axioms;

    let graph = MultidistanceGraphHashmap::from_tuple_edge_list(edges);
    let closure = multidistance_closure(&graph);
    let ghost c = closure_model(closure@);
    let mut backbone: MultilayerBackbone = HashMap::new();
    let mut i: usize = 0;
    proof {
        assert(closure_model(backbone@).dom() =~= Set::<usize>::empty());
    }
    while i < edges.len()
        invariant
            i <= edges.len(),
            c == closure_model(closure@),
            is_backbone_of(edges@, c, i as int, closure_model(backbone@)),
        decreases edges.len() - i,
    {
        let (source, target, layer_start, layer_end, layer_weight_index, weight) = edges[i];
        let multidist = MultiDistance::from_tuple(layer_start, layer_end, layer_weight_index, weight);
        let ghost before = closure_model(backbone@);
        let mins = match closure.get(&source) {
            Some(from_source) => from_source.get(&target),
            None => None,
        };
        let keep = match mins {
            Some(front) => front_contains(front, &multidist),
            None => false,
        };
        proof {
            assert(multidist@ == tuple_weight(edges@[i as int]));
            assert(keep == (c.dom().contains(source) && c[source].dom().contains(target) && occurs(
                c[source][target],
                tuple_weight(edges@[i as int]),
            )));
        }
        if keep {
            let mut row = match backbone.remove(&source) {
                Some(row) => row,
                None => HashMap::new(),
            };
            if !row.contains_key(&target) {
                match mins {
                    Some(front) => {
                        row.insert(target, clone_front(front));
                    },
                    None => {},
                }
            }
            backbone.insert(source, row);
        }
        proof {
            let after = closure_model(backbone@);
            assert forall|u: usize, v: usize| tuple_kept(edges@, c, i + 1, u, v) <==> tuple_kept(
                edges@,
                c,
                i as int,
                u,
                v,
            ) || (keep && u == source && v == target) by {
                if tuple_kept(edges@, c, i + 1, u, v) {
                    let k = choose|k: int|
                        0 <= k < i + 1 && (#[trigger] edges@[k]).0 == u && edges@[k].1 == v
                            && c.dom().contains(u) && c[u].dom().contains(v) && occurs(
                            c[u][v],
                            tuple_weight(edges@[k]),
                        );
                    if k < i {
                        assert(tuple_kept(edges@, c, i as int, u, v));
                    }
                }
                if tuple_kept(edges@, c, i as int, u, v) {
                    let k = choose|k: int|
                        0 <= k < i && (#[trigger] edges@[k]).0 == u && edges@[k].1 == v
                            && c.dom().contains(u) && c[u].dom().contains(v) && occurs(
                            c[u][v],
                            tuple_weight(edges@[k]),
                        );
                    assert(edges@[k].0 == u);
                }
                if keep && u == source && v == target {
                    assert(edges@[i as int].0 == u);
                }
            }
            assert forall|u: usize|
                after.dom().contains(u) <==> exists|v: usize| #[trigger]
                    tuple_kept(edges@, c, i + 1, u, v) by {
                if before.dom().contains(u) {
                    let v = choose|v: usize| #[trigger] tuple_kept(edges@, c, i as int, u, v);
                    assert(tuple_kept(edges@, c, i + 1, u, v));
                }
                if keep && u == source {
                    assert(tuple_kept(edges@, c, i + 1, u, target));
                }
                if exists|v: usize| #[trigger] tuple_kept(edges@, c, i + 1, u, v) {
                    let v = choose|v: usize| #[trigger] tuple_kept(edges@, c, i + 1, u, v);
                    if tuple_kept(edges@, c, i as int, u, v) {
                        assert(before.dom().contains(u));
                    }
                }
            }
            assert forall|u: usize, v: usize|
                #![trigger after[u].dom().contains(v)]
                after.dom().contains(u) implies (after[u].dom().contains(v) <==> tuple_kept(
                edges@,
                c,
                i + 1,
                u,
                v,
            )) by {
                if before.dom().contains(u) {
                    assert(before[u].dom().contains(v) <==> tuple_kept(edges@, c, i as int, u, v));
                } else {
                    assert(!tuple_kept(edges@, c, i as int, u, v));
                }
            }
            assert forall|u: usize, v: usize|
                #![trigger after[u][v]]
                after.dom().contains(u) && after[u].dom().contains(v) implies after[u][v]
                == c[u][v] by {
                if before.dom().contains(u) && before[u].dom().contains(v) {
                    assert(before[u][v] == c[u][v]);
                }
            }
        }
        i += 1;
    }
    proof {
        assert(is_closure(graph_of_tuples(edges@), c) && is_backbone_of(
            edges@,
            c,
            edges@.len() as int,
            closure_model(backbone@),
        ));
    }
    backbone
}

} // verus!
