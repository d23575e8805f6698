//! The multidistance closure: the Pareto fronts between all pairs of nodes.
use crate::multidistance::{MultiDistance, NodeID};
use crate::multigraph::{
    graph_of_tuples, is_node_list, GraphModel, MultidistanceGraph, MultidistanceGraphHashmap,
};
use crate::parallel::par_map;
use crate::pareto::{dominated_by, is_antichain};
use crate::search::{is_search_result, SearchTask};
use crate::shortest_paths::{fronts_model, parteto_shortest_distance_from_source, search_task};
use crate::weights::Weights;
use std::collections::HashMap;
use vstd::prelude::*;

verus! {

/// For every source, the fronts of the walks to every other node it reaches.
pub type MultidistanceClosure = HashMap<usize, HashMap<usize, Vec<MultiDistance>>>;

/// The fronts that a closure stands for.
pub open spec fn closure_model(m: Map<usize, HashMap<usize, Vec<MultiDistance>>>) -> Map<
    usize,
    Map<usize, Seq<Weights>>,
> {
    Map::new(|u: usize| m.dom().contains(u), |u: usize| fronts_model(m[u]@))
}

/// The search from `u` without a cap on the hops and without a weight to
/// beat.
pub open spec fn plain_task(g: GraphModel, u: usize) -> SearchTask {
    SearchTask { g, s: u, max_depth: None, target: None }
}

/// `c` is the closure of `g`: its keys are the nodes of `g`, and what it
/// holds for a node is the result of the plain search from that node.
pub open spec fn is_closure(g: GraphModel, c: Map<usize, Map<usize, Seq<Weights>>>) -> bool {
    &&& c.dom() == g.nodes
    &&& forall|u: usize| #[trigger] c.dom().contains(u) ==> is_search_result(plain_task(g, u), c[u])
}

/// The closure of the graph: for every node the result of the search from it,
/// computed in parallel over the sources.
pub fn multidistance_closure<G: MultidistanceGraph + Sync>(graph: &G) -> (r: MultidistanceClosure)
    requires
        graph.inv(),
    ensures
        is_closure(graph.model(), closure_model(r@)),
{
    broadcast use vstd::std_specs::hash::group_hash_axioms;

    let nodes = graph.nodes();
    let search = |source: &NodeID| -> (d: HashMap<usize, Vec<MultiDistance>>)
        requires
            graph.inv(),
        ensures
            is_search_result(plain_task(graph.model(), source.0), fronts_model(d@)),
        {
            assert(search_task(graph.model(), *source, None, None) == plain_task(
                graph.model(),
                source.0,
            ));
            parteto_shortest_distance_from_source(*source, graph, None, None)
        };
    let mut fronts = par_map(&nodes, search);
    let ghost all = fronts@;
    let mut closure: MultidistanceClosure = HashMap::new();
    let mut i: usize = nodes.len();
    while i > 0
        invariant
            i <= nodes@.len(),
            all.len() == nodes@.len(),
            fronts@ == all.take(i as int),
            is_node_list(graph.model(), nodes@),
            forall|k: int|
                0 <= k < all.len() ==> is_search_result(
                    plain_task(graph.model(), nodes@[k].0),
                    fronts_model((#[trigger] all[k])@),
                ),
            forall|u: usize|
                closure@.dom().contains(u) <==> exists|k: int|
                    i <= k < nodes@.len() && (#[trigger] nodes@[k]).0 == u,
            forall|u: usize| #[trigger]
                closure@.dom().contains(u) ==> is_search_result(
                    plain_task(graph.model(), u),
                    fronts_model(closure@[u]@),
                ),
        decreases i,
    {
        i -= 1;
        let source = nodes[i];
        match fronts.pop() {
            Some(found) => {
                assert(found == all[i as int]);
                closure.insert(source.0, found);
                assert(fronts@ == all.take(i as int));
            },
            None => {},
        }
    }
    proof {
        let c = closure_model(closure@);
        assert forall|u: usize| c.dom().contains(u) <==> graph.model().nodes.contains(u) by {
            if graph.model().nodes.contains(u) {
                assert(nodes@.contains(NodeID(u)));
                let k = choose|k: int| 0 <= k < nodes@.len() && nodes@[k] == NodeID(u);
                assert(nodes@[k].0 == u);
            }
        }
        assert(c.dom() =~= graph.model().nodes);
    }
    closure
}

/// The closure of the graph of a list of `(source, target, layer_start,
/// layer_end, layer_weight_index, weight)`.
pub fn distance_closure(edges: &[(usize, usize, usize, usize, usize, u64)]) -> (r:
    MultidistanceClosure)
    ensures
        is_closure(graph_of_tuples(edges@), closure_model(r@)),
{
    let graph = MultidistanceGraphHashmap::from_tuple_edge_list(edges);
    multidistance_closure(&graph)
}

/// In a closure, the front between the ends of an edge between different
/// nodes has an element `<=` the weight of the edge.
pub proof fn lemma_closure_covers_edge(
    g: GraphModel,
    c: Map<usize, Map<usize, Seq<Weights>>>,
    u: usize,
    v: usize,
)
    requires
        g.wf(),
        is_closure(g, c),
        g.has_edge(u, v),
        u != v,
    ensures
        c.dom().contains(u),
        c[u].dom().contains(v),
        dominated_by(c[u][v], g.weight(u, v)),
{
    assert(g.edges.dom().contains((u, v)));
    assert(c.dom().contains(u));
    crate::walks::lemma_edge_walk(g, u, v);
    let p = seq![u, v];
    let t = plain_task(g, u);
    assert(is_search_result(t, c[u]));
    assert(crate::search::search_complete(t, c[u]));
    assert(crate::walks::goes(t.g, p, t.s, v) && crate::walks::within(p, t.max_depth)
        && crate::search::relevant(t, crate::walks::walk_weight(t.g, p)));
}

/// In the closure of the graph of a list of edge tuples, the front between
/// the ends of a tuple has an element `<=` the weight of the tuple, provided
/// that the tuple is between different nodes and that no later tuple between
/// the same nodes takes its place.
pub proof fn lemma_closure_covers_tuple(
    edges: Seq<(usize, usize, usize, usize, usize, u64)>,
    c: Map<usize, Map<usize, Seq<Weights>>>,
    i: int,
)
    requires
        is_closure(graph_of_tuples(edges), c),
        0 <= i < edges.len(),
        edges[i].0 != edges[i].1,
        forall|j: int|
            i < j < edges.len() ==> !((#[trigger] edges[j]).0 == edges[i].0 && edges[j].1
                == edges[i].1),
    ensures
        c.dom().contains(edges[i].0),
        c[edges[i].0].dom().contains(edges[i].1),
        dominated_by(c[edges[i].0][edges[i].1], crate::multigraph::tuple_weight(edges[i])),
{
    crate::multigraph::lemma_tuples_wf(edges);
    crate::multigraph::lemma_tuples_weight(edges, i);
    lemma_closure_covers_edge(graph_of_tuples(edges), c, edges[i].0, edges[i].1);
}

/// Every front of a closure is an antichain: no two of its elements are
/// comparable.
pub proof fn lemma_closure_antichain(
    g: GraphModel,
    c: Map<usize, Map<usize, Seq<Weights>>>,
    u: usize,
    v: usize,
)
    requires
        is_closure(g, c),
        c.dom().contains(u),
        c[u].dom().contains(v),
    ensures
        is_antichain(c[u][v]),
{
    assert(crate::search::front_ok(c[u][v]));
}

/// A closure holds, for every node, exactly the nodes that a walk from it
/// reaches, other than itself, each with the Pareto front of the walks to it.
pub proof fn lemma_closure_fronts(
    g: GraphModel,
    c: Map<usize, Map<usize, Seq<Weights>>>,
    u: usize,
    v: usize,
)
    requires
        g.wf(),
        is_closure(g, c),
        c.dom().contains(u),
    ensures
        c[u].dom().contains(v) == (v != u && crate::walks::reachable(g, u, v, None)),
        c[u].dom().contains(v) ==> crate::walks::is_pareto_front(g, u, v, None, c[u][v]),
{
    crate::search::lemma_result_fronts(plain_task(g, u), c[u], v);
}

/// Removing an edge that is not metric changes no front of the closure: the
/// closure of the graph without the edge has the same keys and its fronts
/// hold the same weights.
pub proof fn lemma_closure_unchanged(
    g: GraphModel,
    a: usize,
    b: usize,
    before: Map<usize, Map<usize, Seq<Weights>>>,
    after: Map<usize, Map<usize, Seq<Weights>>>,
    u: usize,
    v: usize,
    x: Weights,
)
    requires
        g.wf(),
        g.has_edge(a, b),
        !crate::walks::is_metric_edge(g, a, b, None),
        is_closure(g, before),
        is_closure(g.without_edge(a, b), after),
    ensures
        before.dom() == after.dom(),
        before.dom().contains(u) ==> before[u].dom().contains(v) == after[u].dom().contains(v),
        before.dom().contains(u) && before[u].dom().contains(v) ==> crate::pareto::occurs(
            before[u][v],
            x,
        ) == crate::pareto::occurs(after[u][v], x),
{
    let h = g.without_edge(a, b);
    crate::multigraph::lemma_without_edge_wf(g, a, b);
    crate::detours::lemma_remove_keeps_short(g, a, b);
    if before.dom().contains(u) {
        lemma_closure_fronts(g, before, u, v);
        lemma_closure_fronts(h, after, u, v);
        if crate::walks::reachable(g, u, v, None) {
            let p = choose|p: Seq<usize>| #[trigger]
                crate::walks::goes(g, p, u, v) && crate::walks::within(p, None);
            let q = choose|q: Seq<usize>| #[trigger]
                crate::walks::goes(h, q, u, v) && crate::weights::weights_le(
                    crate::walks::walk_weight(h, q),
                    crate::walks::walk_weight(g, p),
                );
            assert(crate::walks::goes(h, q, u, v) && crate::walks::within(q, None));
        }
        if crate::walks::reachable(h, u, v, None) {
            let p = choose|p: Seq<usize>| #[trigger]
                crate::walks::goes(h, p, u, v) && crate::walks::within(p, None);
            crate::detours::lemma_walk_in_subgraph(h, g, p);
            assert(crate::walks::goes(g, p, u, v) && crate::walks::within(p, None));
        }
        if before[u].dom().contains(v) {
            crate::detours::lemma_fronts_alike(h, g, u, v, after[u][v], before[u][v], x);
        }
    }
}

} // verus!
