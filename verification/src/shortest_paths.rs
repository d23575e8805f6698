//! The Pareto single-source shortest-path search.
use crate::multidistance::{EdgeLayerID, MultiDistance, NodeID};
use crate::multigraph::{is_out_edges, GraphModel, MultidistanceGraph};
use crate::pareto::{
    clone_front, concat_fronts, drop_above, extend_front, front_beats, is_zero_front, models,
    multimin, same_front,
};
use crate::potential::{lemma_potential_decreases, lemma_potential_monotone, potential};
use crate::search::{
    at_level, committed, core_inv, initial_state, inv_relaxed, is_search_result, lemma_advance_level,
    lemma_commit, lemma_initial, lemma_relax, lemma_relaxed_weaken, lemma_relaxing_done,
    lemma_result_beaten, lemma_result_complete, lemma_skip, merged_front, out_targets, popped,
    pruned, relaxed, search_inv, FringeModel, SearchState, SearchTask,
};
use std::collections::{HashMap, VecDeque};
use crate::weights::Weights;
use vstd::prelude::*;

verus! {

/// A proposal in the queue of the search.
struct FringeNode {
    node_id: NodeID,
    dists: Vec<MultiDistance>,
    depth: usize,
}

/// The fronts that a map from nodes to lists of multi-distances stands for.
pub open spec fn fronts_model(m: Map<usize, Vec<MultiDistance>>) -> Map<usize, Seq<Weights>> {
    Map::new(|v: usize| m.dom().contains(v), |v: usize| models(m[v]@))
}

/// The cap on the hops as a bound on walks.
pub open spec fn hop_cap(max_depth: Option<usize>) -> Option<nat> {
    match max_depth {
        Some(d) => Some(d as nat),
        None => None,
    }
}

/// The task that the arguments of a search describe.
pub open spec fn search_task(
    g: GraphModel,
    source: NodeID,
    max_depth: Option<usize>,
    edge_compare: Option<(&NodeID, &MultiDistance)>,
) -> SearchTask {
    SearchTask {
        g,
        s: source.0,
        max_depth: hop_cap(max_depth),
        target: match edge_compare {
            Some((node, weight)) => Some((node.0, weight@)),
            None => None,
        },
    }
}

spec fn fringe_model(q: Seq<FringeNode>) -> Seq<FringeModel> {
    Seq::new(
        q.len(),
        |i: int| FringeModel { node: q[i].node_id.0, cands: models(q[i].dists@), depth: q[i].depth as nat },
    )
}

spec fn targets_from(nbrs: Seq<(NodeID, MultiDistance)>, j: int) -> Set<usize> {
    Set::new(|v: usize| exists|i: int| j <= i < nbrs.len() && 0 <= i && (#[trigger] nbrs[i]).0.0 == v)
}

/// Relaxes one edge that leaves the node just settled: proposes for `child`
/// the Pareto minimum of `kept` carried along the edge and of what has been
/// seen there, and puts the proposal into the queue where it is new and the
/// depth allows.
fn relax_edge(
    child: NodeID,
    edge: &MultiDistance,
    kept: &Vec<MultiDistance>,
    depth: usize,
    max_depth: Option<usize>,
    seen: &mut HashMap<usize, Vec<MultiDistance>>,
    fringe: &mut VecDeque<FringeNode>,
    Ghost(t): Ghost<SearchTask>,
    Ghost(st): Ghost<SearchState>,
    Ghost(u): Ghost<usize>,
    Ghost(todo): Ghost<Set<usize>>,
    Ghost(layers): Ghost<Seq<EdgeLayerID>>,
) -> (nx: Ghost<SearchState>)
    requires
        core_inv(t, st),
        inv_relaxed(t, st, u, todo),
        st.dist.dom().contains(u),
        st.dist[u] == models(kept@),
        t.g.has_edge(u, child.0),
        t.g.weight(u, child.0) == edge@,
        st.seen == fronts_model(old(seen)@),
        st.fringe == fringe_model(old(fringe)@),
        depth == st.level,
        t.max_depth == hop_cap(max_depth),
        layers.to_set() == t.g.layers(),
    ensures
        nx@ == relaxed(t, st, u, child.0),
        core_inv(t, nx@),
        inv_relaxed(t, nx@, u, todo.remove(child.0)),
        nx@.seen == fronts_model(final(seen)@),
        nx@.fringe == fringe_model(final(fringe)@),
        potential(layers, nx@.seen) <= potential(layers, st.seen),
        final(fringe)@.len() >= old(fringe)@.len(),
        final(fringe)@.len() > old(fringe)@.len() ==> potential(layers, nx@.seen) < potential(
            layers,
            st.seen,
        ),
{
    broadcast use vstd::std_specs::hash::group_hash_axioms;

    let ghost nx = relaxed(t, st, u, child.0);
    let extended = extend_front(kept, edge);
    let (candidate, changed) = match seen.get(&child.0) {
        Some(before) => {
            let all = concat_fronts(&extended, before);
            let candidate = multimin(all.as_slice());
            let changed = !same_front(&candidate, before);
            (candidate, changed)
        },
        None => {
            proof {
                assert(models(extended@) + Seq::<Weights>::empty() =~= models(extended@));
                crate::pareto::lemma_multimin_nonempty(models(extended@));
            }
            let candidate = multimin(extended.as_slice());
            (candidate, true)
        },
    };
    let allowed = match max_depth {
        Some(d) => depth < d,
        None => true,
    };
    proof {
        let x = lemma_relax(t, st, u, todo, child.0);
        if changed {
            lemma_potential_decreases(layers, st.seen, nx.seen, child.0, x);
        } else {
            lemma_potential_monotone(layers, st.seen, nx.seen);
        }
    }
    if changed && allowed {
        let next_depth = match max_depth {
            Some(_) => depth + 1,
            None => 0,
        };
        fringe.push_back(
            FringeNode { node_id: child, dists: clone_front(&candidate), depth: next_depth },
        );
        assert(fringe_model(fringe@) =~= nx.fringe);
    }
    seen.insert(child.0, candidate);
    assert(fronts_model(seen@) =~= nx.seen);
    Ghost(nx)
}

/// The Pareto fronts of the walks from `source`.
///
/// The result maps every node other than `source` that a walk within
/// `max_depth` hops reaches to the Pareto front of the weights of those
/// walks: an antichain of weights of such walks that has an element `<=` the
/// weight of every one of them.  The source itself is never a key.
///
/// With `edge_compare` set to a target and a weight to beat, weights strictly
/// above that weight are dropped on the way: the fronts are then those of the
/// walks that are not strictly above it.  And the search stops as soon as it
/// finds the target reached by a walk strictly below the weight; the front
/// of the target then shows it, and nothing more is said of the other fronts
/// than that they hold weights of walks.
pub fn parteto_shortest_distance_from_source<G: MultidistanceGraph>(
    source: NodeID,
    graph: &G,
    max_depth: Option<usize>,
    edge_compare: Option<(&NodeID, &MultiDistance)>,
) -> (r: HashMap<usize, Vec<MultiDistance>>)
    requires
        graph.inv(),
    ensures
        is_search_result(
            search_task(graph.model(), source, max_depth, edge_compare),
            fronts_model(r@),
        ),
{
    broadcast use vstd::std_specs::hash::group_hash_axioms;

    let ghost t = search_task(graph.model(), source, max_depth, edge_compare);
    let ghost mut st = initial_state(t);
    proof {
        graph.lemma_model_wf();
        lemma_initial(t);
    }
    let ghost layers = t.g.layers().to_seq();
    proof {
        t.g.layers().lemma_to_seq_to_set_id();
    }
    let mut dist_map: HashMap<usize, Vec<MultiDistance>> = HashMap::new();
    let mut seen: HashMap<usize, Vec<MultiDistance>> = HashMap::new();
    let mut fringe: VecDeque<FringeNode> = VecDeque::new();
    let mut first: Vec<MultiDistance> = Vec::new();
    first.push(MultiDistance::new());
    seen.insert(source.0, clone_front(&first));
    fringe.push_back(FringeNode { node_id: source, dists: first, depth: 0 });
    let mut beaten = false;
    proof {
        assert(fronts_model(dist_map@) =~= st.dist);
        assert(fronts_model(seen@) =~= st.seen) by {
            assert(models(seen@[source.0]@) =~= seq![crate::weights::weights_zero()]);
        }
        assert(fringe_model(fringe@) =~= st.fringe) by {
            assert(models(fringe@[0].dists@) =~= seq![crate::weights::weights_zero()]);
        }
    }
    while fringe.len() > 0 && !beaten
        invariant
            graph.inv(),
            t == search_task(graph.model(), source, max_depth, edge_compare),
            layers.to_set() == t.g.layers(),
            !beaten ==> search_inv(t, st) && st.dist == fronts_model(dist_map@) && st.seen
                == fronts_model(seen@) && st.fringe == fringe_model(fringe@),
            beaten ==> is_search_result(t, fronts_model(dist_map@).remove(t.s)) && (fronts_model(
                dist_map@,
            ).dom().contains(t.s) ==> fronts_model(dist_map@)[t.s] == seq![
                crate::weights::weights_zero(),
            ]),
        decreases (if beaten { 0nat } else { 1nat }), potential(layers, fronts_model(seen@)),
            fringe.len(),
    {
        let ghost queue = fringe@;
        let fringe_node = fringe.pop_front().unwrap();
        let node = fringe_node.node_id;
        let depth = fringe_node.depth;
        proof {
            assert(st.fringe[0].node == node.0);
            if st.fringe[0].depth == st.level + 1 {
                lemma_advance_level(t, st);
                st = at_level(st, st.level + 1);
            }
            assert(fringe_model(fringe@) =~= st.fringe.drop_first());
        }
        let too_deep = match max_depth {
            Some(d) => depth > d,
            None => false,
        };
        proof {
            // Proposals are only made below the cap.
            assert(crate::search::depth_allowed(t, st.fringe[0].depth));
            assert(!too_deep);
        }
        if !too_deep {
            let merged = match dist_map.get(&node.0) {
                Some(old_dist) => {
                    let all = concat_fronts(old_dist, &fringe_node.dists);
                    multimin(all.as_slice())
                },
                None => {
                    proof {
                        assert(Seq::<Weights>::empty() + models(fringe_node.dists@) =~= models(
                            fringe_node.dists@,
                        ));
                    }
                    multimin(fringe_node.dists.as_slice())
                },
            };
            assert(models(merged@) == merged_front(st));
            let early = match edge_compare {
                Some((target, weight)) => node.0 == target.0 && front_beats(&merged, weight),
                None => false,
            };
            if early {
                proof {
                    lemma_result_beaten(t, st);
                }
                dist_map.insert(node.0, merged);
                beaten = true;
                assert(fronts_model(dist_map@) =~= st.dist.insert(node.0, merged_front(st)));
            } else {
                let kept = match edge_compare {
                    Some((_, weight)) => drop_above(&merged, weight),
                    None => merged,
                };
                assert(models(kept@) == pruned(t, merged_front(st)));
                if kept.len() == 0 {
                    proof {
                        lemma_skip(t, st);
                        st = popped(st);
                    }
                } else {
                    let ghost seen_before = st.seen;
                    proof {
                        lemma_commit(t, st);
                        st = committed(st, models(kept@));
                    }
                    dist_map.insert(node.0, clone_front(&kept));
                    assert(fronts_model(dist_map@) =~= st.dist);
                    let nbrs = graph.neighbor_edges(&node);
                    let mut j: usize = 0;
                    proof {
                        lemma_relaxed_weaken(
                            t,
                            st,
                            node.0,
                            out_targets(t.g, node.0),
                            targets_from(nbrs@, 0),
                        );
                    }
                    while j < nbrs.len()
                        invariant
                            j <= nbrs.len(),
                            graph.inv(),
                            t.g == graph.model(),
                            t.max_depth == hop_cap(max_depth),
                            layers.to_set() == t.g.layers(),
                            is_out_edges(t.g, node.0, nbrs@),
                            core_inv(t, st),
                            inv_relaxed(t, st, node.0, targets_from(nbrs@, j as int)),
                            st.dist == fronts_model(dist_map@),
                            st.seen == fronts_model(seen@),
                            st.fringe == fringe_model(fringe@),
                            st.dist.dom().contains(node.0),
                            st.dist[node.0] == models(kept@),
                            depth == st.level,
                            potential(layers, st.seen) <= potential(layers, seen_before),
                            fringe@.len() >= queue.len() - 1,
                            fringe@.len() > queue.len() - 1 ==> potential(layers, st.seen)
                                < potential(layers, seen_before),
                        decreases nbrs.len() - j,
                    {
                        let child = nbrs[j].0;
                        let next = relax_edge(
                            child,
                            &nbrs[j].1,
                            &kept,
                            depth,
                            max_depth,
                            &mut seen,
                            &mut fringe,
                            Ghost(t),
                            Ghost(st),
                            Ghost(node.0),
                            Ghost(targets_from(nbrs@, j as int)),
                            Ghost(layers),
                        );
                        proof {
                            lemma_relaxed_weaken(
                                t,
                                next@,
                                node.0,
                                targets_from(nbrs@, j as int).remove(child.0),
                                targets_from(nbrs@, j + 1),
                            );
                            st = next@;
                        }
                        j += 1;
                    }
                    proof {
                        lemma_relaxing_done(t, st, node.0, targets_from(nbrs@, nbrs.len() as int));
                    }
                }
            }
        }
    }
    proof {
        if !beaten {
            lemma_result_complete(t, st);
        }
    }
    let remove_source = match dist_map.get(&source.0) {
        Some(front) => is_zero_front(front),
        None => false,
    };
    let ghost before = dist_map@;
    if remove_source {
        dist_map.remove(&source.0);
    }
    assert(fronts_model(dist_map@) =~= fronts_model(before).remove(t.s));
    dist_map
}

} // verus!
