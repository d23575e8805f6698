//! Edge lists as adjacency lists.
use crate::multidistance::{MultiDistance, NodeID};
use crate::adjacency::{has_target, lemma_list_set, lists_inv, lists_model};
use crate::multigraph::{graph_of_tuples, lemma_empty_wf, lemma_tuples_edges, tuple_weight};
use crate::weights::Weights;
use std::collections::HashMap;
use vstd::prelude::*;

verus! {

/// Adjacency lists: for every node the edges that leave it.
pub type EdgeMap = HashMap<usize, Vec<(NodeID, MultiDistance)>>;

/// The targets and weights of the edge tuples that leave `u`, in the order of
/// the list.
pub open spec fn multiplex_list(
    s: Seq<(usize, usize, usize, usize, usize, u64)>,
    u: usize,
) -> Seq<(usize, Weights)>
    decreases s.len(),
{
    if s.len() == 0 {
        Seq::empty()
    } else if s.last().0 == u {
        multiplex_list(s.drop_last(), u).push((s.last().1, tuple_weight(s.last())))
    } else {
        multiplex_list(s.drop_last(), u)
    }
}

/// Some edge tuple of the list starts or ends at `u`.
pub open spec fn is_endpoint(s: Seq<(usize, usize, usize, usize, usize, u64)>, u: usize) -> bool {
    exists|i: int| 0 <= i < s.len() && ((#[trigger] s[i]).0 == u || s[i].1 == u)
}

/// The targets and weights that a list of neighbours stands for.
pub open spec fn neighbour_models(list: Seq<(NodeID, MultiDistance)>) -> Seq<(usize, Weights)> {
    Seq::new(list.len(), |i: int| (list[i].0.0, list[i].1@))
}

/// `m` is the multiplex of the edge list: its keys are the nodes at which
/// some edge starts or ends, and each key has the list of the edges that
/// leave it.
pub open spec fn is_multiplex(
    s: Seq<(usize, usize, usize, usize, usize, u64)>,
    m: Map<usize, Vec<(NodeID, MultiDistance)>>,
) -> bool {
    &&& forall|u: usize| m.dom().contains(u) <==> is_endpoint(s, u)
    &&& forall|u: usize| #[trigger]
        m.dom().contains(u) ==> neighbour_models(m[u]@) == multiplex_list(s, u)
}

/// No two edge tuples of the list are between the same nodes.
pub open spec fn no_repeated_pair(s: Seq<(usize, usize, usize, usize, usize, u64)>) -> bool {
    forall|i: int, j: int|
        #![trigger s[i], s[j]]
        0 <= i < j < s.len() ==> !(s[i].0 == s[j].0 && s[i].1 == s[j].1)
}

/// The adjacency lists of a list of `(source, target, layer_start, layer_end,
/// layer_weight_index, weight)`: every node that occurs is a key, and holds
/// the targets and weights of the edges that leave it, in the order of the
/// list.  Edges between the same two nodes are all kept; where there are
/// none, the lists are a valid graph, the graph of the list.
pub fn edges_to_multiplex(edges: &[(usize, usize, usize, usize, usize, u64)]) -> (r: EdgeMap)
    ensures
        is_multiplex(edges@, r@),
        no_repeated_pair(edges@) ==> lists_inv(r@) && lists_model(r@) == graph_of_tuples(edges@),
{
    broadcast use vstd::std_specs::hash::group_hash_axioms;

    let mut multiplex: EdgeMap = HashMap::new();
    let mut i: usize = 0;
    proof {
        lemma_empty_wf();
        assert(lists_model(multiplex@).edges =~= graph_of_tuples(edges@.take(0)).edges);
    }
    while i < edges.len()
        invariant
            i <= edges.len(),
            is_multiplex(edges@.take(i as int), multiplex@),
            no_repeated_pair(edges@) ==> lists_inv(multiplex@) && lists_model(multiplex@)
                == graph_of_tuples(edges@.take(i as int)),
        decreases edges.len() - i,
    {
        let (source, target, layer_start, layer_end, layer_weight_index, weight) = edges[i];
        let multidist = MultiDistance::from_tuple(layer_start, layer_end, layer_weight_index, weight);
        let ghost before = multiplex@;
        let ghost done = edges@.take(i as int);
        let ghost next = edges@.take(i + 1);
        let mut list = match multiplex.remove(&source) {
            Some(list) => list,
            None => Vec::new(),
        };
        let ghost old_list = list@;
        list.push((NodeID(target), multidist));
        multiplex.insert(source, list);
        if !multiplex.contains_key(&target) {
            multiplex.insert(target, Vec::new());
        }
        proof {
            assert(next.drop_last() == done);
            assert(next.last() == edges@[i as int]);
            if no_repeated_pair(edges@) {
                lemma_tuples_edges(done, source, target);
                if graph_of_tuples(done).has_edge(source, target) {
                    let k = choose|k: int|
                        0 <= k < done.len() && (#[trigger] done[k]).0 == source && done[k].1
                            == target;
                    assert(edges@[k].0 == edges@[i as int].0 && edges@[k].1 == edges@[i as int].1);
                }
                if before.dom().contains(source) {
                    assert(lists_model(before).edges.dom().contains((source, target))
                        == has_target(old_list, target));
                }
                assert(multiplex@.dom() =~= before.dom().insert(source).insert(target));
                lemma_list_set(
                    before,
                    multiplex@,
                    source,
                    target,
                    multidist@,
                    old_list,
                    multiplex@[source]@,
                    old_list.len() as int,
                );
            }
            assert forall|u: usize| multiplex@.dom().contains(u) <==> is_endpoint(next, u) by {
                if is_endpoint(done, u) {
                    let k = choose|k: int|
                        0 <= k < done.len() && ((#[trigger] done[k]).0 == u || done[k].1 == u);
                    assert(next[k] == done[k]);
                }
                if u == source || u == target {
                    assert(next[i as int].0 == u || next[i as int].1 == u);
                }
                if is_endpoint(next, u) {
                    let k = choose|k: int|
                        0 <= k < next.len() && ((#[trigger] next[k]).0 == u || next[k].1 == u);
                    if k < i {
                        assert(done[k] == next[k]);
                    }
                }
            }
            assert forall|u: usize| #[trigger] multiplex@.dom().contains(u) implies neighbour_models(
                multiplex@[u]@,
            ) == multiplex_list(next, u) by {
                if u == source {
                    if before.dom().contains(source) {
                        assert(neighbour_models(old_list) == multiplex_list(done, u));
                    } else {
                        assert(!is_endpoint(done, u));
                        lemma_no_endpoint_no_list(done, u);
                        assert(neighbour_models(old_list) =~= multiplex_list(done, u));
                    }
                    assert(neighbour_models(multiplex@[u]@) =~= neighbour_models(old_list).push(
                        (target, multidist@),
                    ));
                } else if before.dom().contains(u) {
                    assert(multiplex@[u] == before[u]);
                } else {
                    assert(!is_endpoint(done, u));
                    lemma_no_endpoint_no_list(done, u);
                    assert(neighbour_models(multiplex@[u]@) =~= multiplex_list(done, u));
                }
            }
        }
        i += 1;
    }
    proof {
        assert(edges@.take(edges.len() as int) == edges@);
    }
    multiplex
}

/// A node at which no edge starts has an empty list.
proof fn lemma_no_endpoint_no_list(s: Seq<(usize, usize, usize, usize, usize, u64)>, u: usize)
    requires
        !is_endpoint(s, u),
    ensures
        multiplex_list(s, u) == Seq::<(usize, Weights)>::empty(),
    decreases s.len(),
{
    if s.len() > 0 {
        assert(s[s.len() - 1].0 != u);
        assert forall|i: int| 0 <= i < s.drop_last().len() implies !((#[trigger] s.drop_last()[i]).0
            == u || s.drop_last()[i].1 == u) by {
            assert(s[i].0 != u && s[i].1 != u);
        }
        lemma_no_endpoint_no_list(s.drop_last(), u);
    }
}

} // verus!
