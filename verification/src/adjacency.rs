//! Adjacency lists as a graph.
use crate::conversion::EdgeMap;
use crate::multidistance::{EdgeLayerID, MultiDistance, NodeID};
use crate::multigraph::{
    lemma_with_edge_wf, lemma_without_edge_wf, GraphModel, MultidistanceGraph,
};
use crate::weights::canonical;
use std::collections::HashMap;
use vstd::prelude::*;
use vstd::std_specs::iter::IteratorSpec;

verus! {

/// Some entry of the list leads to `v`.
pub open spec fn has_target(list: Seq<(NodeID, MultiDistance)>, v: usize) -> bool {
    exists|i: int| 0 <= i < list.len() && (#[trigger] list[i]).0.0 == v
}

/// The position of an entry that leads to `v`.
pub open spec fn target_index(list: Seq<(NodeID, MultiDistance)>, v: usize) -> int {
    choose|i: int| 0 <= i < list.len() && (#[trigger] list[i]).0.0 == v
}

/// No two entries lead to the same node, and every weight is canonical.
pub open spec fn list_ok(list: Seq<(NodeID, MultiDistance)>) -> bool {
    &&& forall|i: int, j: int|
        #![trigger list[i], list[j]]
        0 <= i < j < list.len() ==> list[i].0.0 != list[j].0.0
    &&& forall|i: int| 0 <= i < list.len() ==> canonical((#[trigger] list[i]).1@)
}

/// The graph that adjacency lists stand for.
pub open spec fn lists_model(m: Map<usize, Vec<(NodeID, MultiDistance)>>) -> GraphModel {
    GraphModel {
        nodes: m.dom(),
        edges: Map::new(
            |e: (usize, usize)| m.dom().contains(e.0) && has_target(m[e.0]@, e.1),
            |e: (usize, usize)| m[e.0]@[target_index(m[e.0]@, e.1)].1@,
        ),
    }
}

/// Every list has one entry for a target at most, every target is a key, the
/// weights are canonical and span finitely many layers.
pub open spec fn lists_inv(m: Map<usize, Vec<(NodeID, MultiDistance)>>) -> bool {
    &&& m.dom().finite()
    &&& lists_model(m).layers().finite()
    &&& forall|u: usize| #[trigger] m.dom().contains(u) ==> list_ok(m[u]@)
    &&& forall|u: usize, i: int|
        #![trigger m[u]@[i]]
        m.dom().contains(u) && 0 <= i < m[u]@.len() ==> m.dom().contains(m[u]@[i].0.0)
}

/// In a list without repeated targets, every entry is found at its own
/// position.
pub proof fn lemma_target_index(list: Seq<(NodeID, MultiDistance)>, i: int)
    requires
        list_ok(list),
        0 <= i < list.len(),
    ensures
        has_target(list, list[i].0.0),
        target_index(list, list[i].0.0) == i,
{
    let v = list[i].0.0;
    assert(has_target(list, v));
    let j = target_index(list, v);
    assert(list[j].0.0 == v);
    if j < i {
        assert(list[j].0.0 != list[i].0.0);
    } else if i < j {
        assert(list[i].0.0 != list[j].0.0);
    }
}

/// Setting the entry for `to` in the list of `from`, or adding it where the
/// list has none, sets the edge from `from` to `to` in the graph; `to`
/// becomes a key with an empty list where it was none.
pub proof fn lemma_list_set(
    before: Map<usize, Vec<(NodeID, MultiDistance)>>,
    after: Map<usize, Vec<(NodeID, MultiDistance)>>,
    from: usize,
    to: usize,
    w: crate::weights::Weights,
    old_list: Seq<(NodeID, MultiDistance)>,
    new_list: Seq<(NodeID, MultiDistance)>,
    at: int,
)
    requires
        lists_inv(before),
        canonical(w),
        after.dom() == before.dom().insert(from).insert(to),
        forall|u: usize| before.dom().contains(u) && u != from ==> after[u] == before[u],
        !before.dom().contains(to) && to != from ==> after[to]@.len() == 0,
        before.dom().contains(from) ==> old_list == before[from]@,
        !before.dom().contains(from) ==> old_list.len() == 0,
        new_list == after[from]@,
        0 <= at <= old_list.len(),
        at < new_list.len(),
        new_list[at].0.0 == to,
        new_list[at].1@ == w,
        at < old_list.len() ==> old_list[at].0.0 == to && new_list.len() == old_list.len(),
        at == old_list.len() ==> !has_target(old_list, to) && new_list.len() == old_list.len() + 1,
        forall|k: int| 0 <= k < old_list.len() && k != at ==> new_list[k] == old_list[k],
    ensures
        lists_inv(after),
        lists_model(after) == lists_model(before).with_edge(from, to, w),
{
    let g = lists_model(before);
    let h = lists_model(after);
    assert(list_ok(old_list));
    assert(list_ok(new_list)) by {
        assert forall|i: int, j: int|
            #![trigger new_list[i], new_list[j]]
            0 <= i < j < new_list.len() implies new_list[i].0.0 != new_list[j].0.0 by {
            if i != at && j != at {
                assert(old_list[i].0.0 != old_list[j].0.0);
            } else if at < old_list.len() {
                if i == at {
                    assert(old_list[at].0.0 != old_list[j].0.0);
                } else {
                    assert(old_list[i].0.0 != old_list[at].0.0);
                }
            } else {
                assert(old_list[i].0.0 != to);
            }
        }
    }
    assert forall|v: usize| has_target(new_list, v) <==> has_target(old_list, v) || v == to by {
        if has_target(new_list, v) {
            let k = target_index(new_list, v);
            if k != at {
                assert(old_list[k].0.0 == v);
            }
        }
        if has_target(old_list, v) {
            let k = target_index(old_list, v);
            if k == at {
                assert(old_list[k].0.0 == to);
            } else {
                assert(new_list[k].0.0 == v);
            }
        }
    }
    assert forall|v: usize| has_target(new_list, v) && v != to implies new_list[target_index(
        new_list,
        v,
    )].1@ == old_list[target_index(old_list, v)].1@ by {
        let k = target_index(new_list, v);
        assert(new_list[k].0.0 == v);
        assert(k != at);
        assert(old_list[k].0.0 == v);
        lemma_target_index(old_list, k);
    }
    lemma_target_index(new_list, at);
    assert(h.nodes =~= g.with_edge(from, to, w).nodes);
    assert forall|e: (usize, usize)|
        h.edges.dom().contains(e) <==> g.with_edge(from, to, w).edges.dom().contains(e) by {
        if e.0 == from {
            if !before.dom().contains(from) {
                assert(!has_target(old_list, e.1));
            }
        } else if before.dom().contains(e.0) {
            assert(after[e.0] == before[e.0]);
        } else {
            if after.dom().contains(e.0) {
                assert(after[e.0]@.len() == 0);
            }
        }
    }
    assert forall|e: (usize, usize)| h.edges.dom().contains(e) implies h.edges[e] == g.with_edge(
        from,
        to,
        w,
    ).edges[e] by {
        if e.0 != from {
            assert(after[e.0] == before[e.0]);
        }
    }
    assert(h.edges =~= g.with_edge(from, to, w).edges);
    assert(g.wf()) by {
        assert forall|e: (usize, usize)| #[trigger] g.edges.dom().contains(e) implies g.nodes.contains(
            e.0,
        ) && g.nodes.contains(e.1) && canonical(g.edges[e]) by {
            let i = target_index(before[e.0]@, e.1);
            assert(before[e.0]@[i].0.0 == e.1);
            assert(canonical(before[e.0]@[i].1@));
        }
    }
    lemma_with_edge_wf(g, from, to, w);
    assert forall|u: usize| #[trigger] after.dom().contains(u) implies list_ok(after[u]@) by {
        if u == from {
        } else if before.dom().contains(u) {
            assert(after[u] == before[u]);
        }
    }
    assert forall|u: usize, i: int|
        #![trigger after[u]@[i]]
        after.dom().contains(u) && 0 <= i < after[u]@.len() implies after.dom().contains(
        after[u]@[i].0.0,
    ) by {
        if u == from {
            if i != at {
                assert(new_list[i] == old_list[i]);
                assert(before.dom().contains(before[u]@[i].0.0));
            }
        } else if before.dom().contains(u) {
            assert(after[u] == before[u]);
            assert(before.dom().contains(before[u]@[i].0.0));
        }
    }
}

/// The position of the entry that leads to `to`, if there is one.
fn find_target(list: &Vec<(NodeID, MultiDistance)>, to: NodeID) -> (r: Option<usize>)
    ensures
        match r {
            Some(i) => i < list@.len() && list@[i as int].0 == to,
            None => !has_target(list@, to.0),
        },
{
    let mut i: usize = 0;
    while i < list.len()
        invariant
            i <= list.len(),
            forall|k: int| 0 <= k < i ==> (#[trigger] list@[k]).0.0 != to.0,
        decreases list.len() - i,
    {
        if list[i].0 == to {
            return Some(i);
        }
        i += 1;
    }
    None
}

impl MultidistanceGraph for EdgeMap {
    open spec fn model(&self) -> GraphModel {
        lists_model(self@)
    }

    open spec fn inv(&self) -> bool {
        lists_inv(self@)
    }

    proof fn lemma_model_wf(&self) {
        let g = self.model();
        assert forall|e: (usize, usize)| #[trigger] g.edges.dom().contains(e) implies g.nodes.contains(
            e.0,
        ) && g.nodes.contains(e.1) && canonical(g.edges[e]) by {
            let i = target_index(self@[e.0]@, e.1);
            assert(self@[e.0]@[i].0.0 == e.1);
            assert(canonical(self@[e.0]@[i].1@));
        }
    }

    fn nodes(&self) -> (r: Vec<NodeID>) {
        broadcast use vstd::std_specs::hash::group_hash_axioms;

        let mut r: Vec<NodeID> = Vec::new();
        let keys = self.keys();
        let ghost all = keys.remaining().unref();
        for k in it: keys
            invariant
                it.seq().unref() == all,
                r@.len() == it.index(),
                forall|i: int| 0 <= i < r@.len() ==> (#[trigger] r@[i]).0 == all[i],
        {
            r.push(NodeID(*k));
        }
        proof {
            assert(r@.len() == all.len());
            assert forall|v: usize| #[trigger] self.model().nodes.contains(v) implies r@.contains(
                NodeID(v),
            ) by {
                assert(all.to_set().contains(v));
                let i = choose|i: int| 0 <= i < all.len() && all[i] == v;
                assert(r@[i] == NodeID(v));
            }
            assert forall|i: int| 0 <= i < r@.len() implies self.model().nodes.contains(
                (#[trigger] r@[i]).0,
            ) by {
                assert(all.to_set().contains(all[i]));
            }
        }
        r
    }

    fn add_edge(&mut self, from: NodeID, to: NodeID, weight: MultiDistance) {
        broadcast use vstd::std_specs::hash::group_hash_axioms;

        weight.model_is_canonical();
        let ghost before = self@;
        let ghost w = weight@;
        let mut list = match self.remove(&from.0) {
            Some(list) => list,
            None => Vec::new(),
        };
        let ghost old_list = list@;
        let found = find_target(&list, to);
        match found {
            Some(i) => {
                list.set(i, (to, weight));
            },
            None => {
                list.push((to, weight));
            },
        }
        let ghost new_list = list@;
        self.insert(from.0, list);
        if !self.contains_key(&to.0) {
            self.insert(to.0, Vec::new());
        }
        proof {
            let at: int = match found {
                Some(i) => i as int,
                None => old_list.len() as int,
            };
            if before.dom().contains(from.0) {
                assert(old_list == before[from.0]@);
            }
            assert(self@.dom() =~= before.dom().insert(from.0).insert(to.0));
            lemma_list_set(before, self@, from.0, to.0, w, old_list, new_list, at);
        }
    }

    fn remove_edge(&mut self, from: NodeID, to: NodeID) {
        broadcast use vstd::std_specs::hash::group_hash_axioms;

        let ghost before = self@;
        let ghost g = lists_model(before);
        proof {
            self.lemma_model_wf();
        }
        match self.remove(&from.0) {
            Some(mut list) => {
                let ghost old_list = list@;
                let found = find_target(&list, to);
                match found {
                    Some(i) => {
                        list.remove(i);
                    },
                    None => {},
                }
                let ghost new_list = list@;
                self.insert(from.0, list);
                proof {
                    let after = self@;
                    let h = lists_model(after);
                    assert(list_ok(old_list));
                    assert(list_ok(new_list)) by {
                        match found {
                            Some(i) => {
                                assert forall|a: int, b: int|
                                    #![trigger new_list[a], new_list[b]]
                                    0 <= a < b < new_list.len() implies new_list[a].0.0
                                    != new_list[b].0.0 by {
                                    let a0 = if a < i { a } else { a + 1 };
                                    let b0 = if b < i { b } else { b + 1 };
                                    assert(new_list[a] == old_list[a0]);
                                    assert(new_list[b] == old_list[b0]);
                                }
                                assert forall|a: int| 0 <= a < new_list.len() implies canonical(
                                    (#[trigger] new_list[a]).1@,
                                ) by {
                                    let a0 = if a < i { a } else { a + 1 };
                                    assert(new_list[a] == old_list[a0]);
                                }
                            },
                            None => {},
                        }
                    }
                    assert forall|v: usize| has_target(new_list, v) <==> has_target(old_list, v) && v
                        != to.0 by {
                        match found {
                            Some(i) => {
                                if has_target(new_list, v) {
                                    let k = target_index(new_list, v);
                                    let k0 = if k < i { k } else { k + 1 };
                                    assert(new_list[k] == old_list[k0]);
                                    assert(old_list[k0].0.0 == v);
                                    if v == to.0 {
                                        lemma_target_index(old_list, k0);
                                        lemma_target_index(old_list, i as int);
                                    }
                                }
                                if has_target(old_list, v) && v != to.0 {
                                    let k0 = target_index(old_list, v);
                                    let k = if k0 < i { k0 } else { k0 - 1 };
                                    assert(new_list[k] == old_list[k0]);
                                    assert(new_list[k].0.0 == v);
                                }
                            },
                            None => {},
                        }
                    }
                    assert forall|v: usize| has_target(new_list, v) implies new_list[target_index(
                        new_list,
                        v,
                    )].1@ == old_list[target_index(old_list, v)].1@ by {
                        let k = target_index(new_list, v);
                        assert(new_list[k].0.0 == v);
                        match found {
                            Some(i) => {
                                let k0 = if k < i { k } else { k + 1 };
                                assert(new_list[k] == old_list[k0]);
                                lemma_target_index(old_list, k0);
                            },
                            None => {},
                        }
                    }
                    assert(h.nodes =~= g.without_edge(from.0, to.0).nodes);
                    assert forall|e: (usize, usize)|
                        h.edges.dom().contains(e) <==> g.without_edge(
                            from.0,
                            to.0,
                        ).edges.dom().contains(e) by {
                        if e.0 == from.0 {
                            assert(after[e.0]@ == new_list);
                            assert(before[e.0]@ == old_list);
                        } else if before.dom().contains(e.0) {
                            assert(after[e.0] == before[e.0]);
                        }
                    }
                    assert forall|e: (usize, usize)| h.edges.dom().contains(e) implies h.edges[e]
                        == g.without_edge(from.0, to.0).edges[e] by {
                        if e.0 == from.0 {
                            assert(after[e.0]@ == new_list);
                            assert(before[e.0]@ == old_list);
                        } else {
                            assert(after[e.0] == before[e.0]);
                        }
                    }
                    assert(h.edges =~= g.without_edge(from.0, to.0).edges);
                    assert(h == g.without_edge(from.0, to.0));
                    lemma_without_edge_wf(g, from.0, to.0);
                    assert forall|u: usize| #[trigger] after.dom().contains(u) implies list_ok(
                        after[u]@,
                    ) by {
                        if u != from.0 {
                            assert(after[u] == before[u]);
                        }
                    }
                    assert forall|u: usize, i: int|
                        #![trigger after[u]@[i]]
                        after.dom().contains(u) && 0 <= i < after[u]@.len() implies after.dom().contains(
                        after[u]@[i].0.0,
                    ) by {
                        if u == from.0 {
                            match found {
                                Some(k) => {
                                    let i0 = if i < k { i } else { i + 1 };
                                    assert(new_list[i] == old_list[i0]);
                                    assert(before.dom().contains(before[u]@[i0].0.0));
                                },
                                None => {
                                    assert(before.dom().contains(before[u]@[i].0.0));
                                },
                            }
                        } else {
                            assert(after[u] == before[u]);
                            assert(before.dom().contains(before[u]@[i].0.0));
                        }
                    }
                }
            },
            None => {
                proof {
                    assert(self@ =~= before);
                    assert(lists_model(self@).edges =~= g.without_edge(from.0, to.0).edges);
                    lemma_without_edge_wf(g, from.0, to.0);
                }
            },
        }
    }

    fn neighbor_edges(&self, node: &NodeID) -> (r: Vec<(NodeID, MultiDistance)>) {
        broadcast use vstd::std_specs::hash::group_hash_axioms;

        let mut r: Vec<(NodeID, MultiDistance)> = Vec::new();
        match self.get(&node.0) {
            Some(list) => {
                let mut i: usize = 0;
                while i < list.len()
                    invariant
                        i <= list.len(),
                        r@.len() == i,
                        forall|k: int|
                            0 <= k < i ==> (#[trigger] r@[k]).0 == list@[k].0 && r@[k].1@
                                == list@[k].1@,
                    decreases list.len() - i,
                {
                    r.push((list[i].0, list[i].1.clone()));
                    i += 1;
                }
                proof {
                    let g = self.model();
                    assert(list_ok(list@));
                    assert forall|k: int| 0 <= k < r@.len() implies g.has_edge(
                        node.0,
                        (#[trigger] r@[k]).0.0,
                    ) && g.weight(node.0, r@[k].0.0) == r@[k].1@ by {
                        lemma_target_index(list@, k);
                    }
                    assert forall|v: usize| #[trigger] g.has_edge(node.0, v) implies exists|k: int|
                        0 <= k < r@.len() && (#[trigger] r@[k]).0 == NodeID(v) by {
                        let k = target_index(list@, v);
                        assert(list@[k].0.0 == v);
                        assert(r@[k].0 == NodeID(v));
                    }
                    assert forall|a: int, b: int|
                        #![trigger r@[a], r@[b]]
                        0 <= a < b < r@.len() implies r@[a].0 != r@[b].0 by {
                        assert(list@[a].0.0 != list@[b].0.0);
                    }
                }
            },
            None => {},
        }
        r
    }

    fn edge_weight(&self, from: NodeID, to: NodeID) -> (r: Option<&MultiDistance>) {
        broadcast use vstd::std_specs::hash::group_hash_axioms;

        match self.get(&from.0) {
            Some(list) => {
                match find_target(list, to) {
                    Some(i) => {
                        proof {
                            assert(list_ok(list@));
                            lemma_target_index(list@, i as int);
                        }
                        Some(&list[i].1)
                    },
                    None => None,
                }
            },
            None => None,
        }
    }
}

} // verus!
