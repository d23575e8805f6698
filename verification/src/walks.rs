//! Walks through a graph, their weights, and Pareto fronts of walk weights.
use crate::multidistance::EdgeLayerID;
use crate::multigraph::GraphModel;
use crate::pareto::{dominated_by, is_antichain};
use crate::weights::{
    canonical, lemma_add_canonical, lemma_add_increases, lemma_add_zero, lemma_le_antisymmetric,
    lemma_le_transitive, lemma_zero_least, weights_add, weights_le, weights_lt, weights_zero,
    Weights,
};
use vstd::prelude::*;

verus! {

/// A walk is a non-empty sequence of nodes in which each node has an edge to
/// the next.  A single node is a walk without edges.
pub open spec fn is_walk(g: GraphModel, p: Seq<usize>) -> bool {
    &&& p.len() >= 1
    &&& forall|i: int| 0 <= i < p.len() - 1 ==> g.has_edge(#[trigger] p[i], p[i + 1])
}

/// `p` is a walk from `s` to `v`.
pub open spec fn goes(g: GraphModel, p: Seq<usize>, s: usize, v: usize) -> bool {
    is_walk(g, p) && p[0] == s && p[p.len() - 1] == v
}

/// The number of edges of a walk.
pub open spec fn hops(p: Seq<usize>) -> nat {
    if p.len() >= 1 {
        (p.len() - 1) as nat
    } else {
        0
    }
}

/// The walk has at most `bound` edges, if there is a bound.
pub open spec fn within(p: Seq<usize>, bound: Option<nat>) -> bool {
    match bound {
        Some(n) => hops(p) <= n,
        None => true,
    }
}

/// The sum of the weights of the edges of a walk.
pub open spec fn walk_weight(g: GraphModel, p: Seq<usize>) -> Weights
    decreases p.len(),
{
    if p.len() <= 1 {
        weights_zero()
    } else {
        weights_add(walk_weight(g, p.drop_last()), g.weight(p[p.len() - 2], p[p.len() - 1]))
    }
}

/// Some walk from `s` to `v` within the bound has weight `x`.
pub open spec fn attained(g: GraphModel, s: usize, v: usize, bound: Option<nat>, x: Weights) -> bool {
    exists|p: Seq<usize>| #[trigger] goes(g, p, s, v) && within(p, bound) && walk_weight(g, p) == x
}

/// Some walk leads from `s` to `v` within the bound.
pub open spec fn reachable(g: GraphModel, s: usize, v: usize, bound: Option<nat>) -> bool {
    exists|p: Seq<usize>| #[trigger] goes(g, p, s, v) && within(p, bound)
}

/// `front` is the Pareto front of the weights of the walks from `s` to `v`
/// within the bound: an antichain of attained weights that has an element
/// `<=` the weight of every such walk.
pub open spec fn is_pareto_front(
    g: GraphModel,
    s: usize,
    v: usize,
    bound: Option<nat>,
    front: Seq<Weights>,
) -> bool {
    &&& is_antichain(front)
    &&& forall|a: int| 0 <= a < front.len() ==> attained(g, s, v, bound, #[trigger] front[a])
    &&& forall|p: Seq<usize>| #[trigger]
        goes(g, p, s, v) && within(p, bound) ==> dominated_by(front, walk_weight(g, p))
}

/// Some walk from `u` to `v` within the bound is strictly below the weight of
/// the edge from `u` to `v`.
pub open spec fn strictly_beaten(g: GraphModel, u: usize, v: usize, bound: Option<nat>) -> bool {
    exists|p: Seq<usize>| #[trigger]
        goes(g, p, u, v) && within(p, bound) && weights_lt(walk_weight(g, p), g.weight(u, v))
}

/// The edge from `u` to `v` is metric within the bound: it is an edge, its
/// weight is the weight of a walk from `u` to `v` within the bound, and no
/// such walk is strictly below it.  In other words, the Pareto front of the
/// walks from `u` to `v` within the bound holds the weight of the edge.
pub open spec fn is_metric_edge(g: GraphModel, u: usize, v: usize, bound: Option<nat>) -> bool {
    &&& g.has_edge(u, v)
    &&& attained(g, u, v, bound, g.weight(u, v))
    &&& !strictly_beaten(g, u, v, bound)
}

/// The walk that stays at `s`.
pub proof fn lemma_trivial_walk(g: GraphModel, s: usize)
    ensures
        goes(g, seq![s], s, s),
        hops(seq![s]) == 0,
        walk_weight(g, seq![s]) == weights_zero(),
{
}

/// A walk can be continued along an edge that leaves its end.
pub proof fn lemma_walk_extend(g: GraphModel, p: Seq<usize>, s: usize, u: usize, v: usize)
    requires
        goes(g, p, s, u),
        g.has_edge(u, v),
    ensures
        goes(g, p.push(v), s, v),
        hops(p.push(v)) == hops(p) + 1,
        walk_weight(g, p.push(v)) == weights_add(walk_weight(g, p), g.weight(u, v)),
{
    let q = p.push(v);
    assert(q.drop_last() == p);
    assert forall|i: int| 0 <= i < q.len() - 1 implies g.has_edge(#[trigger] q[i], q[i + 1]) by {
        if i < p.len() - 1 {
            assert(g.has_edge(p[i], p[i + 1]));
        }
    }
}

/// A walk with an edge is a shorter walk followed by its last edge.
pub proof fn lemma_walk_split(g: GraphModel, p: Seq<usize>, s: usize, v: usize)
    requires
        goes(g, p, s, v),
        p.len() >= 2,
    ensures
        goes(g, p.drop_last(), s, p[p.len() - 2]),
        g.has_edge(p[p.len() - 2], v),
        hops(p) == hops(p.drop_last()) + 1,
        walk_weight(g, p) == weights_add(
            walk_weight(g, p.drop_last()),
            g.weight(p[p.len() - 2], v),
        ),
        weights_le(walk_weight(g, p.drop_last()), walk_weight(g, p)),
{
    let q = p.drop_last();
    assert forall|i: int| 0 <= i < q.len() - 1 implies g.has_edge(#[trigger] q[i], q[i + 1]) by {
        assert(g.has_edge(p[i], p[i + 1]));
    }
    assert(g.has_edge(p[p.len() - 2], p[p.len() - 2 + 1]));
    lemma_add_increases(walk_weight(g, q), g.weight(p[p.len() - 2], v));
}

/// In a well-formed graph the weight of a walk is canonical and carries
/// weight only in layers of the graph.
pub proof fn lemma_walk_weight_canonical(g: GraphModel, p: Seq<usize>)
    requires
        g.wf(),
        is_walk(g, p),
    ensures
        canonical(walk_weight(g, p)),
        walk_weight(g, p).dom().subset_of(g.layers()),
    decreases p.len(),
{
    if p.len() <= 1 {
        lemma_zero_least(weights_zero());
    } else {
        let q = p.drop_last();
        lemma_walk_split(g, p, p[0], p[p.len() - 1]);
        lemma_walk_weight_canonical(g, q);
        let e = (p[p.len() - 2], p[p.len() - 1]);
        assert(g.edges.dom().contains(e));
        lemma_add_canonical(walk_weight(g, q), g.edges[e]);
        assert forall|k: EdgeLayerID| walk_weight(g, p).dom().contains(k) implies g.layers().contains(
            k,
        ) by {
            if !walk_weight(g, q).dom().contains(k) {
                assert(g.edges[e].dom().contains(k));
            }
        }
    }
}

/// The walk along a single edge has the weight of the edge.
pub proof fn lemma_edge_walk(g: GraphModel, u: usize, v: usize)
    requires
        g.has_edge(u, v),
    ensures
        goes(g, seq![u, v], u, v),
        hops(seq![u, v]) == 1,
        walk_weight(g, seq![u, v]) == g.weight(u, v),
{
    let p = seq![u, v];
    lemma_trivial_walk(g, u);
    lemma_walk_extend(g, seq![u], u, u, v);
    assert(seq![u].push(v) =~= p);
    lemma_add_zero(g.weight(u, v));
}

/// A Pareto front holds the weight of an edge exactly when the edge is
/// metric.
pub proof fn lemma_front_holds_metric(
    g: GraphModel,
    u: usize,
    v: usize,
    bound: Option<nat>,
    front: Seq<Weights>,
)
    requires
        g.wf(),
        g.has_edge(u, v),
        is_pareto_front(g, u, v, bound, front),
    ensures
        crate::pareto::occurs(front, g.weight(u, v)) == is_metric_edge(g, u, v, bound),
{
    let w = g.weight(u, v);
    assert(g.edges.dom().contains((u, v)));
    if crate::pareto::occurs(front, w) {
        let a = choose|a: int| 0 <= a < front.len() && #[trigger] front[a] == w;
        assert(attained(g, u, v, bound, front[a]));
        if strictly_beaten(g, u, v, bound) {
            let p = choose|p: Seq<usize>| #[trigger]
                goes(g, p, u, v) && within(p, bound) && weights_lt(walk_weight(g, p), w);
            assert(dominated_by(front, walk_weight(g, p)));
            let b = choose|b: int|
                0 <= b < front.len() && 0 <= b && weights_le(#[trigger] front[b], walk_weight(g, p));
            lemma_le_transitive(front[b], walk_weight(g, p), w);
            if b != a {
                assert(!weights_le(front[b], front[a]));
            }
        }
    }
    if is_metric_edge(g, u, v, bound) {
        let p = choose|p: Seq<usize>| #[trigger]
            goes(g, p, u, v) && within(p, bound) && walk_weight(g, p) == w;
        assert(dominated_by(front, walk_weight(g, p)));
        let b = choose|b: int| 0 <= b < front.len() && 0 <= b && weights_le(#[trigger] front[b], w);
        assert(attained(g, u, v, bound, front[b]));
        let q = choose|q: Seq<usize>| #[trigger]
            goes(g, q, u, v) && within(q, bound) && walk_weight(g, q) == front[b];
        assert(!weights_lt(walk_weight(g, q), w));
        lemma_walk_weight_canonical(g, q);
        lemma_le_antisymmetric(front[b], w);
    }
}

} // verus!
