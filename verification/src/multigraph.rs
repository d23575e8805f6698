//! The graph abstraction that the algorithms work on, and a hash-map graph.
use crate::multidistance::{EdgeLayerID, MultiDistance, NodeID};
use crate::weights::{canonical, weights_zero, Weights};
use std::collections::HashMap;
use vstd::prelude::*;
use vstd::std_specs::iter::IteratorSpec;

verus! {

/// The mathematical model of a directed graph with one weight per edge.
pub struct GraphModel {
    pub nodes: Set<usize>,
    pub edges: Map<(usize, usize), Weights>,
}

impl GraphModel {
    /// There is an edge from `u` to `v`.
    pub open spec fn has_edge(self, u: usize, v: usize) -> bool {
        self.edges.dom().contains((u, v))
    }

    /// The weight of the edge from `u` to `v`.
    pub open spec fn weight(self, u: usize, v: usize) -> Weights {
        self.edges[(u, v)]
    }

    /// The layers in which some edge carries weight.
    pub open spec fn layers(self) -> Set<EdgeLayerID> {
        Set::new(
            |k: EdgeLayerID|
                exists|e: (usize, usize)|
                    #[trigger] self.edges.dom().contains(e) && self.edges[e].dom().contains(k),
        )
    }

    /// Finitely many nodes and layers, both ends of every edge are nodes, and
    /// every weight is canonical.
    pub open spec fn wf(self) -> bool {
        &&& self.nodes.finite()
        &&& self.layers().finite()
        &&& forall|e: (usize, usize)| #[trigger]
            self.edges.dom().contains(e) ==> self.nodes.contains(e.0) && self.nodes.contains(e.1)
                && canonical(self.edges[e])
    }

    /// The graph without nodes.
    pub open spec fn empty() -> GraphModel {
        GraphModel { nodes: Set::empty(), edges: Map::empty() }
    }

    /// The graph with the edge from `u` to `v` set to weight `w`; both ends
    /// become nodes.
    pub open spec fn with_edge(self, u: usize, v: usize, w: Weights) -> GraphModel {
        GraphModel { nodes: self.nodes.insert(u).insert(v), edges: self.edges.insert((u, v), w) }
    }

    /// The graph without the edge from `u` to `v`; the nodes stay.
    pub open spec fn without_edge(self, u: usize, v: usize) -> GraphModel {
        GraphModel { nodes: self.nodes, edges: self.edges.remove((u, v)) }
    }

    /// Every edge of `self` is an edge of `other`, with the same weight.
    pub open spec fn subgraph_of(self, other: GraphModel) -> bool {
        &&& self.nodes.subset_of(other.nodes)
        &&& forall|e: (usize, usize)| #[trigger]
            self.edges.dom().contains(e) ==> other.edges.dom().contains(e) && other.edges[e]
                == self.edges[e]
    }
}

/// The empty graph is well-formed.
pub proof fn lemma_empty_wf()
    ensures
        GraphModel::empty().wf(),
{
    assert(GraphModel::empty().layers() =~= Set::<EdgeLayerID>::empty());
}

/// Setting an edge to a canonical weight keeps a graph well-formed.
pub proof fn lemma_with_edge_wf(g: GraphModel, u: usize, v: usize, w: Weights)
    requires
        g.wf(),
        canonical(w),
    ensures
        g.with_edge(u, v, w).wf(),
{
    let h = g.with_edge(u, v, w);
    assert(h.layers().subset_of(g.layers().union(w.dom()))) by {
        assert forall|k: EdgeLayerID| h.layers().contains(k) implies g.layers().union(
            w.dom(),
        ).contains(k) by {
            let e = choose|e: (usize, usize)|
                #[trigger] h.edges.dom().contains(e) && h.edges[e].dom().contains(k);
            if e != (u, v) {
                assert(g.edges.dom().contains(e));
            }
        }
    }
    vstd::set_lib::lemma_set_subset_finite(g.layers().union(w.dom()), h.layers());
}

/// Removing an edge keeps a graph well-formed.
pub proof fn lemma_without_edge_wf(g: GraphModel, u: usize, v: usize)
    requires
        g.wf(),
    ensures
        g.without_edge(u, v).wf(),
        g.without_edge(u, v).subgraph_of(g),
{
    let h = g.without_edge(u, v);
    assert(h.layers().subset_of(g.layers())) by {
        assert forall|k: EdgeLayerID| h.layers().contains(k) implies g.layers().contains(k) by {
            let e = choose|e: (usize, usize)|
                #[trigger] h.edges.dom().contains(e) && h.edges[e].dom().contains(k);
            assert(g.edges.dom().contains(e));
        }
    }
    vstd::set_lib::lemma_set_subset_finite(g.layers(), h.layers());
}

/// `r` lists the edges that leave `u`, each target once.
pub open spec fn is_out_edges(g: GraphModel, u: usize, r: Seq<(NodeID, MultiDistance)>) -> bool {
    &&& forall|i: int, j: int|
        #![trigger r[i], r[j]]
        0 <= i < j < r.len() ==> r[i].0 != r[j].0
    &&& forall|i: int|
        0 <= i < r.len() ==> g.has_edge(u, (#[trigger] r[i]).0.0) && g.weight(u, r[i].0.0)
            == r[i].1@
    &&& forall|v: usize| #[trigger]
        g.has_edge(u, v) ==> exists|i: int| 0 <= i < r.len() && (#[trigger] r[i]).0 == NodeID(v)
}

/// `r` lists the nodes, each once.
pub open spec fn is_node_list(g: GraphModel, r: Seq<NodeID>) -> bool {
    &&& r.no_duplicates()
    &&& forall|i: int| 0 <= i < r.len() ==> g.nodes.contains((#[trigger] r[i]).0)
    &&& forall|v: usize| #[trigger] g.nodes.contains(v) ==> r.contains(NodeID(v))
}

/// What the algorithms ask of a graph: to list its nodes and the edges that
/// leave a node, to look an edge up, and to add and remove an edge.
pub trait MultidistanceGraph {
    /// The graph that this value stands for.
    spec fn model(&self) -> GraphModel;

    /// The value is a valid representation.
    spec fn inv(&self) -> bool;

    /// A valid representation stands for a well-formed graph.
    proof fn lemma_model_wf(&self)
        requires
            self.inv(),
        ensures
            self.model().wf(),
    ;

    /// The nodes, each once, in no particular order.
    fn nodes(&self) -> (r: Vec<NodeID>)
        requires
            self.inv(),
        ensures
            is_node_list(self.model(), r@),
    ;

    /// Sets the edge from `from` to `to` to `weight`, replacing an earlier
    /// weight of that edge; both ends become nodes.
    fn add_edge(&mut self, from: NodeID, to: NodeID, weight: MultiDistance)
        requires
            old(self).inv(),
        ensures
            final(self).inv(),
            final(self).model() == old(self).model().with_edge(from.0, to.0, weight@),
    ;

    /// Removes the edge from `from` to `to`, if there is one.
    fn remove_edge(&mut self, from: NodeID, to: NodeID)
        requires
            old(self).inv(),
        ensures
            final(self).inv(),
            final(self).model() == old(self).model().without_edge(from.0, to.0),
    ;

    /// The edges that leave `node`, each with its target and weight.
    fn neighbor_edges(&self, node: &NodeID) -> (r: Vec<(NodeID, MultiDistance)>)
        requires
            self.inv(),
        ensures
            is_out_edges(self.model(), node.0, r@),
    ;

    /// The weight of the edge from `from` to `to`, if there is one.
    fn edge_weight(&self, from: NodeID, to: NodeID) -> (r: Option<&MultiDistance>)
        requires
            self.inv(),
        ensures
            r.is_some() == self.model().has_edge(from.0, to.0),
            r.is_some() ==> r.unwrap()@ == self.model().weight(from.0, to.0),
    ;
}

/// What a graph whose edges carry several weights offers: to add weights to
/// an edge, to remove an edge, to list the neighbours of a node and to look
/// an edge up.
pub trait ClosureGraph {
    /// Adds `weights` to the edge from `from` to `to`.
    fn extend_edge<I>(&mut self, from: NodeID, to: NodeID, weights: I) where
        I: IntoIterator<Item = MultiDistance>,
    ;

    /// Removes the edge from `from` to `to`, if there is one.
    fn remove_edge(&mut self, from: NodeID, to: NodeID);

    /// The nodes to which an edge leads from `node`.
    fn neighbors(&self, node: NodeID) -> Vec<NodeID>;

    /// A weight of the edge from `from` to `to`, if there is one.
    fn edge_weight(&self, from: NodeID, to: NodeID) -> Option<&MultiDistance>;
}

/// A graph stored as a map from each node to the map of its out-edges.
pub struct MultidistanceGraphHashmap {
    edges: HashMap<usize, HashMap<usize, MultiDistance>>,
}

/// The model of a nested edge map.
pub open spec fn nested_model(m: Map<usize, HashMap<usize, MultiDistance>>) -> GraphModel {
    GraphModel {
        nodes: m.dom(),
        edges: Map::new(
            |e: (usize, usize)| m.dom().contains(e.0) && m[e.0]@.dom().contains(e.1),
            |e: (usize, usize)| m[e.0]@[e.1]@,
        ),
    }
}

/// Every target is itself a key, the stored weights are canonical and span
/// finitely many layers.
pub open spec fn nested_inv(m: Map<usize, HashMap<usize, MultiDistance>>) -> bool {
    &&& m.dom().finite()
    &&& nested_model(m).layers().finite()
    &&& forall|u: usize, v: usize|
        #![trigger m[u]@.dom().contains(v)]
        m.dom().contains(u) && m[u]@.dom().contains(v) ==> m.dom().contains(v) && canonical(
            m[u]@[v]@,
        )
}

impl Clone for MultidistanceGraphHashmap {
    fn clone(&self) -> (r: Self)
        ensures
            r.model() == self.model(),
            self.inv() ==> r.inv(),
    {
        MultidistanceGraphHashmap { edges: self.edges.clone() }
    }
}

impl Default for MultidistanceGraphHashmap {
    fn default() -> (r: Self)
        ensures
            r.inv(),
            r.model() == GraphModel::empty(),
    {
        MultidistanceGraphHashmap::new()
    }
}

impl MultidistanceGraphHashmap {
    /// The graph without nodes.
    pub fn new() -> (r: MultidistanceGraphHashmap)
        ensures
            r.inv(),
            r.model() == GraphModel::empty(),
    {
        let r = MultidistanceGraphHashmap { edges: HashMap::new() };
        proof {
            assert(nested_model(r.edges@).edges =~= Map::<(usize, usize), Weights>::empty());
            assert(nested_model(r.edges@) == GraphModel::empty());
            lemma_empty_wf();
        }
        r
    }

    /// The graph that results from adding the edges in order; of two edges
    /// between the same nodes the later one stays.
    pub fn from_multidistance_edge_list(edges: Vec<(NodeID, NodeID, MultiDistance)>) -> (r:
        MultidistanceGraphHashmap)
        ensures
            r.inv(),
            r.model() == graph_of_edges(edges@),
    {
        let mut graph = MultidistanceGraphHashmap::new();
        let mut i: usize = 0;
        while i < edges.len()
            invariant
                i <= edges.len(),
                graph.inv(),
                graph.model() == graph_of_edges(edges@.take(i as int)),
            decreases edges.len() - i,
        {
            let from = edges[i].0;
            let to = edges[i].1;
            let weight = edges[i].2.clone();
            proof {
                assert(edges@.take(i + 1).drop_last() == edges@.take(i as int));
            }
            graph.add_edge(from, to, weight);
            i += 1;
        }
        proof {
            assert(edges@.take(edges.len() as int) == edges@);
        }
        graph
    }

    /// The graph of a list of `(source, target, layer_start, layer_end,
    /// layer_weight_index, weight)`; of two edges between the same nodes the
    /// later one stays, and an edge of weight zero carries the zero distance.
    pub fn from_tuple_edge_list(edges: &[(usize, usize, usize, usize, usize, u64)]) -> (r:
        MultidistanceGraphHashmap)
        ensures
            r.inv(),
            r.model() == graph_of_tuples(edges@),
    {
        let mut graph = MultidistanceGraphHashmap::new();
        let mut i: usize = 0;
        while i < edges.len()
            invariant
                i <= edges.len(),
                graph.inv(),
                graph.model() == graph_of_tuples(edges@.take(i as int)),
            decreases edges.len() - i,
        {
            let (from, to, layer_start, layer_end, layer_weight_index, weight) = edges[i];
            let edge_weight = MultiDistance::from_tuple(
                layer_start,
                layer_end,
                layer_weight_index,
                weight,
            );
            proof {
                assert(edges@.take(i + 1).drop_last() == edges@.take(i as int));
            }
            graph.add_edge(NodeID(from), NodeID(to), edge_weight);
            i += 1;
        }
        proof {
            assert(edges@.take(edges.len() as int) == edges@);
        }
        graph
    }
}

/// The weight vector of an edge tuple: its weight in its layer, or the zero
/// distance where the weight is zero.
pub open spec fn tuple_weight(t: (usize, usize, usize, usize, usize, u64)) -> Weights {
    if t.5 == 0 {
        weights_zero()
    } else {
        Map::<EdgeLayerID, u64>::empty().insert(
            EdgeLayerID { layer_start: t.2, layer_end: t.3, layer_weight_index: t.4 },
            t.5,
        )
    }
}

/// The graph that adding the edges of `s` in order gives.
pub open spec fn graph_of_edges(s: Seq<(NodeID, NodeID, MultiDistance)>) -> GraphModel
    decreases s.len(),
{
    if s.len() == 0 {
        GraphModel::empty()
    } else {
        graph_of_edges(s.drop_last()).with_edge(s.last().0.0, s.last().1.0, s.last().2@)
    }
}

/// The graph that adding the edge tuples of `s` in order gives.
pub open spec fn graph_of_tuples(s: Seq<(usize, usize, usize, usize, usize, u64)>) -> GraphModel
    decreases s.len(),
{
    if s.len() == 0 {
        GraphModel::empty()
    } else {
        graph_of_tuples(s.drop_last()).with_edge(s.last().0, s.last().1, tuple_weight(s.last()))
    }
}

/// The graph of a list of edge tuples has an edge between two nodes exactly
/// when some tuple of the list is between them.
pub proof fn lemma_tuples_edges(s: Seq<(usize, usize, usize, usize, usize, u64)>, u: usize, v: usize)
    ensures
        graph_of_tuples(s).has_edge(u, v) <==> exists|k: int|
            0 <= k < s.len() && (#[trigger] s[k]).0 == u && s[k].1 == v,
    decreases s.len(),
{
    if s.len() > 0 {
        let rest = s.drop_last();
        lemma_tuples_edges(rest, u, v);
        if graph_of_tuples(s).has_edge(u, v) {
            if s.last().0 == u && s.last().1 == v {
                assert(s[s.len() - 1].0 == u);
            } else {
                assert(graph_of_tuples(rest).has_edge(u, v));
                let k = choose|k: int|
                    0 <= k < rest.len() && (#[trigger] rest[k]).0 == u && rest[k].1 == v;
                assert(s[k].0 == u && s[k].1 == v);
            }
        }
        if exists|k: int| 0 <= k < s.len() && (#[trigger] s[k]).0 == u && s[k].1 == v {
            let k = choose|k: int| 0 <= k < s.len() && (#[trigger] s[k]).0 == u && s[k].1 == v;
            if k < s.len() - 1 {
                assert(rest[k].0 == u && rest[k].1 == v);
            }
        }
    }
}

/// The graph of a list of edge tuples is well-formed.
pub proof fn lemma_tuples_wf(s: Seq<(usize, usize, usize, usize, usize, u64)>)
    ensures
        graph_of_tuples(s).wf(),
    decreases s.len(),
{
    if s.len() == 0 {
        lemma_empty_wf();
    } else {
        lemma_tuples_wf(s.drop_last());
        lemma_with_edge_wf(
            graph_of_tuples(s.drop_last()),
            s.last().0,
            s.last().1,
            tuple_weight(s.last()),
        );
    }
}

/// In the graph of a list of edge tuples, the weight of an edge is that of the
/// last tuple between its ends.
pub proof fn lemma_tuples_weight(s: Seq<(usize, usize, usize, usize, usize, u64)>, i: int)
    requires
        0 <= i < s.len(),
        forall|j: int| i < j < s.len() ==> !((#[trigger] s[j]).0 == s[i].0 && s[j].1 == s[i].1),
    ensures
        graph_of_tuples(s).has_edge(s[i].0, s[i].1),
        graph_of_tuples(s).weight(s[i].0, s[i].1) == tuple_weight(s[i]),
    decreases s.len(),
{
    if i < s.len() - 1 {
        let rest = s.drop_last();
        assert forall|j: int| i < j < rest.len() implies !((#[trigger] rest[j]).0 == rest[i].0
            && rest[j].1 == rest[i].1) by {
            assert(rest[j] == s[j]);
        }
        lemma_tuples_weight(rest, i);
        let n = s.len() - 1;
        assert(!(s[n].0 == s[i].0 && s[n].1 == s[i].1));
    }
}

impl MultidistanceGraph for MultidistanceGraphHashmap {
    closed spec fn model(&self) -> GraphModel {
        nested_model(self.edges@)
    }

    closed spec fn inv(&self) -> bool {
        nested_inv(self.edges@)
    }

    proof fn lemma_model_wf(&self) {
    }

    fn nodes(&self) -> (r: Vec<NodeID>) {
        broadcast use vstd::std_specs::hash::group_hash_axioms;

        let mut r: Vec<NodeID> = Vec::new();
        let keys = self.edges.keys();
        let ghost all = keys.remaining().unref();
        for k in it: keys
            invariant
                it.seq().unref() == all,
                r@.len() == it.index(),
                forall|i: int| 0 <= i < r@.len() ==> (#[trigger] r@[i]).0 == all[i],
        {
            r.push(NodeID(*k));
        }
        proof {
            assert(r@.len() == all.len());
            assert forall|v: usize| #[trigger] self.model().nodes.contains(v) implies r@.contains(
                NodeID(v),
            ) by {
                assert(all.to_set().contains(v));
                let i = choose|i: int| 0 <= i < all.len() && all[i] == v;
                assert(r@[i] == NodeID(v));
            }
            assert forall|i: int| 0 <= i < r@.len() implies self.model().nodes.contains(
                (#[trigger] r@[i]).0,
            ) by {
                assert(all.to_set().contains(all[i]));
            }
        }
        r
    }

    fn add_edge(&mut self, from: NodeID, to: NodeID, weight: MultiDistance) {
        broadcast use vstd::std_specs::hash::group_hash_axioms;

        weight.model_is_canonical();
        let ghost before = self.edges@;
        let ghost w = weight@;
        let mut inner = match self.edges.remove(&from.0) {
            Some(m) => m,
            None => HashMap::new(),
        };
        inner.insert(to.0, weight);
        self.edges.insert(from.0, inner);
        if !self.edges.contains_key(&to.0) {
            self.edges.insert(to.0, HashMap::new());
        }
        proof {
            let after = self.edges@;
            let g = nested_model(before);
            let h = nested_model(after);
            assert(h.nodes =~= g.with_edge(from.0, to.0, w).nodes);
            assert(h.edges =~= g.with_edge(from.0, to.0, w).edges);
            lemma_with_edge_wf(g, from.0, to.0, w);
        }
    }

    fn remove_edge(&mut self, from: NodeID, to: NodeID) {
        broadcast use vstd::std_specs::hash::group_hash_axioms;

        let ghost before = self.edges@;
        match self.edges.remove(&from.0) {
            Some(mut inner) => {
                inner.remove(&to.0);
                self.edges.insert(from.0, inner);
            },
            None => {},
        }
        proof {
            let after = self.edges@;
            let g = nested_model(before);
            let h = nested_model(after);
            assert(h.nodes =~= g.without_edge(from.0, to.0).nodes);
            assert(h.edges =~= g.without_edge(from.0, to.0).edges);
            lemma_without_edge_wf(g, from.0, to.0);
        }
    }

    fn neighbor_edges(&self, node: &NodeID) -> (r: Vec<(NodeID, MultiDistance)>) {
        broadcast use vstd::std_specs::hash::group_hash_axioms;

        let mut r: Vec<(NodeID, MultiDistance)> = Vec::new();
        match self.edges.get(&node.0) {
            None => {},
            Some(inner) => {
                let keys = inner.keys();
                let ghost all = keys.remaining().unref();
                for k in it: keys
                    invariant
                        it.seq().unref() == all,
                        all.to_set() == inner@.dom(),
                        r@.len() == it.index(),
                        forall|i: int|
                            0 <= i < r@.len() ==> (#[trigger] r@[i]).0 == NodeID(all[i])
                                && r@[i].1@ == inner@[all[i]]@,
                {
                    assert(all.to_set().contains(*k));
                    match inner.get(k) {
                        Some(weight) => {
                            r.push((NodeID(*k), weight.clone()));
                        },
                        None => {},
                    }
                }
                proof {
                    assert(r@.len() == all.len());
                    assert forall|i: int| 0 <= i < r@.len() implies self.model().has_edge(
                        node.0,
                        (#[trigger] r@[i]).0.0,
                    ) && self.model().weight(node.0, r@[i].0.0) == r@[i].1@ by {
                        assert(all.to_set().contains(all[i]));
                    }
                    assert forall|v: usize| #[trigger]
                        self.model().has_edge(node.0, v) implies exists|i: int|
                        0 <= i < r@.len() && (#[trigger] r@[i]).0 == NodeID(v) by {
                        assert(all.to_set().contains(v));
                        let i = choose|i: int| 0 <= i < all.len() && all[i] == v;
                        assert(r@[i].0 == NodeID(v));
                    }
                }
            },
        }
        r
    }

    fn edge_weight(&self, from: NodeID, to: NodeID) -> (r: Option<&MultiDistance>) {
        broadcast use vstd::std_specs::hash::group_hash_axioms;

        match self.edges.get(&from.0) {
            Some(inner) => inner.get(&to.0),
            None => None,
        }
    }
}

} // verus!
