//! Why edges that are not metric can be removed: every walk through such an
//! edge can take a detour that is no heavier.
use crate::multigraph::GraphModel;
use crate::pareto::{dominated_by, occurs};
use crate::walks::{
    attained, goes, hops, is_metric_edge, is_pareto_front, is_walk, lemma_edge_walk,
    lemma_walk_extend, lemma_walk_split, lemma_walk_weight_canonical, strictly_beaten, walk_weight,
    within,
};
use crate::weights::{
    lemma_add_associative, lemma_add_increases, lemma_add_monotone, lemma_add_commutative,
    lemma_add_zero, lemma_le_antisymmetric, lemma_le_reflexive, lemma_le_transitive, weights_add,
    weights_le, weights_lt, Weights,
};
use vstd::prelude::*;

verus! {

/// A walk of a subgraph is a walk of the graph, with the same weight.
pub proof fn lemma_walk_in_subgraph(h: GraphModel, g: GraphModel, p: Seq<usize>)
    requires
        h.subgraph_of(g),
        is_walk(h, p),
    ensures
        is_walk(g, p),
        walk_weight(g, p) == walk_weight(h, p),
    decreases p.len(),
{
    assert forall|i: int| 0 <= i < p.len() - 1 implies g.has_edge(#[trigger] p[i], p[i + 1]) by {
        assert(h.has_edge(p[i], p[i + 1]));
        assert(h.edges.dom().contains((p[i], p[i + 1])));
    }
    if p.len() >= 2 {
        lemma_walk_split(h, p, p[0], p[p.len() - 1]);
        lemma_walk_in_subgraph(h, g, p.drop_last());
        assert(h.edges.dom().contains((p[p.len() - 2], p[p.len() - 1])));
    }
}

/// A walk is at least as heavy as each of its edges.
pub proof fn lemma_walk_above_edge(g: GraphModel, p: Seq<usize>, i: int)
    requires
        is_walk(g, p),
        0 <= i < p.len() - 1,
    ensures
        weights_le(g.weight(p[i], p[i + 1]), walk_weight(g, p)),
    decreases p.len(),
{
    lemma_walk_split(g, p, p[0], p[p.len() - 1]);
    let q = p.drop_last();
    let e = g.weight(p[p.len() - 2], p[p.len() - 1]);
    lemma_add_increases(walk_weight(g, q), e);
    if i < p.len() - 2 {
        lemma_walk_above_edge(g, q, i);
        assert(q[i] == p[i] && q[i + 1] == p[i + 1]);
        lemma_le_transitive(g.weight(p[i], p[i + 1]), walk_weight(g, q), walk_weight(g, p));
    }
}

/// A walk that does not use the edge from `a` to `b` is a walk of the graph
/// without that edge, with the same weight.
pub proof fn lemma_walk_avoiding(g: GraphModel, a: usize, b: usize, p: Seq<usize>)
    requires
        is_walk(g, p),
        forall|i: int| 0 <= i < p.len() - 1 ==> !(#[trigger] p[i] == a && p[i + 1] == b),
    ensures
        is_walk(g.without_edge(a, b), p),
        walk_weight(g.without_edge(a, b), p) == walk_weight(g, p),
    decreases p.len(),
{
    let h = g.without_edge(a, b);
    assert forall|i: int| 0 <= i < p.len() - 1 implies h.has_edge(#[trigger] p[i], p[i + 1]) by {
        assert(g.has_edge(p[i], p[i + 1]));
    }
    if p.len() >= 2 {
        let q = p.drop_last();
        lemma_walk_split(g, p, p[0], p[p.len() - 1]);
        assert forall|i: int| 0 <= i < q.len() - 1 implies !(#[trigger] q[i] == a && q[i + 1]
            == b) by {
            assert(q[i] == p[i] && q[i + 1] == p[i + 1]);
        }
        lemma_walk_avoiding(g, a, b, q);
        let n = p.len() - 2;
        assert(!(p[n] == a && p[n + 1] == b));
    }
}

/// Two walks, the second starting where the first ends, make one walk whose
/// weight is the sum of theirs.
pub proof fn lemma_walk_concat(
    g: GraphModel,
    p: Seq<usize>,
    q: Seq<usize>,
    x: usize,
    y: usize,
    z: usize,
)
    requires
        goes(g, p, x, y),
        goes(g, q, y, z),
    ensures
        goes(g, p + q.drop_first(), x, z),
        walk_weight(g, p + q.drop_first()) == weights_add(walk_weight(g, p), walk_weight(g, q)),
        hops(p + q.drop_first()) == hops(p) + hops(q),
    decreases q.len(),
{
    if q.len() == 1 {
        assert(p + q.drop_first() =~= p);
        lemma_add_zero(walk_weight(g, p));
    } else {
        let q0 = q.drop_last();
        let mid = q[q.len() - 2];
        lemma_walk_split(g, q, y, z);
        lemma_walk_concat(g, p, q0, x, y, mid);
        let r0 = p + q0.drop_first();
        lemma_walk_extend(g, r0, x, mid, z);
        assert(r0.push(z) =~= p + q.drop_first());
        lemma_add_associative(walk_weight(g, p), walk_weight(g, q0), g.weight(mid, z));
    }
}

/// `h` is as short as `g`: for every walk of `g` there is a walk of `h`
/// between the same nodes that is no heavier.
pub open spec fn as_short(h: GraphModel, g: GraphModel) -> bool {
    forall|p: Seq<usize>, x: usize, y: usize|
        #![trigger goes(g, p, x, y)]
        goes(g, p, x, y) ==> exists|q: Seq<usize>| #[trigger]
            goes(h, q, x, y) && weights_le(walk_weight(h, q), walk_weight(g, p))
}

/// Every graph is as short as itself.
pub proof fn lemma_as_short_reflexive(g: GraphModel)
    ensures
        as_short(g, g),
{
    assert forall|p: Seq<usize>, x: usize, y: usize|
        #![trigger goes(g, p, x, y)]
        goes(g, p, x, y) implies exists|q: Seq<usize>| #[trigger]
        goes(g, q, x, y) && weights_le(walk_weight(g, q), walk_weight(g, p)) by {
        lemma_le_reflexive(walk_weight(g, p));
        assert(goes(g, p, x, y) && weights_le(walk_weight(g, p), walk_weight(g, p)));
    }
}

/// Being as short is transitive.
pub proof fn lemma_as_short_transitive(k: GraphModel, h: GraphModel, g: GraphModel)
    requires
        as_short(k, h),
        as_short(h, g),
    ensures
        as_short(k, g),
{
    assert forall|p: Seq<usize>, x: usize, y: usize|
        #![trigger goes(g, p, x, y)]
        goes(g, p, x, y) implies exists|q: Seq<usize>| #[trigger]
        goes(k, q, x, y) && weights_le(walk_weight(k, q), walk_weight(g, p)) by {
        let q1 = choose|q: Seq<usize>| #[trigger]
            goes(h, q, x, y) && weights_le(walk_weight(h, q), walk_weight(g, p));
        let q2 = choose|q: Seq<usize>| #[trigger]
            goes(k, q, x, y) && weights_le(walk_weight(k, q), walk_weight(h, q1));
        lemma_le_transitive(walk_weight(k, q2), walk_weight(h, q1), walk_weight(g, p));
        assert(goes(k, q2, x, y) && weights_le(walk_weight(k, q2), walk_weight(g, p)));
    }
}

/// With a detour for the edge from `a` to `b`, every walk has a counterpart
/// that avoids the edge and is no heavier.
proof fn lemma_take_detour(
    g: GraphModel,
    a: usize,
    b: usize,
    detour: Seq<usize>,
    p: Seq<usize>,
    x: usize,
    y: usize,
) -> (q: Seq<usize>)
    requires
        g.has_edge(a, b),
        goes(g.without_edge(a, b), detour, a, b),
        weights_le(walk_weight(g.without_edge(a, b), detour), g.weight(a, b)),
        goes(g, p, x, y),
    ensures
        goes(g.without_edge(a, b), q, x, y),
        weights_le(walk_weight(g.without_edge(a, b), q), walk_weight(g, p)),
    decreases p.len(),
{
    let h = g.without_edge(a, b);
    if p.len() == 1 {
        lemma_le_reflexive(walk_weight(g, p));
        assert(is_walk(h, p));
        p
    } else {
        let p0 = p.drop_last();
        let mid = p[p.len() - 2];
        lemma_walk_split(g, p, x, y);
        let q0 = lemma_take_detour(g, a, b, detour, p0, x, mid);
        if mid == a && y == b {
            lemma_walk_concat(h, q0, detour, x, a, b);
            let q = q0 + detour.drop_first();
            lemma_add_monotone(walk_weight(h, q0), walk_weight(g, p0), walk_weight(h, detour));
            lemma_add_commutative(walk_weight(g, p0), walk_weight(h, detour));
            lemma_add_commutative(walk_weight(g, p0), g.weight(a, b));
            lemma_add_monotone(walk_weight(h, detour), g.weight(a, b), walk_weight(g, p0));
            lemma_le_transitive(
                walk_weight(h, q),
                weights_add(walk_weight(g, p0), walk_weight(h, detour)),
                walk_weight(g, p),
            );
            q
        } else {
            assert(h.has_edge(mid, y));
            lemma_walk_extend(h, q0, x, mid, y);
            lemma_add_monotone(walk_weight(h, q0), walk_weight(g, p0), g.weight(mid, y));
            q0.push(y)
        }
    }
}

/// An edge that is not metric has a detour that avoids it and is no heavier.
pub proof fn lemma_detour_exists(g: GraphModel, a: usize, b: usize) -> (detour: Seq<usize>)
    requires
        g.has_edge(a, b),
        !is_metric_edge(g, a, b, None),
    ensures
        goes(g.without_edge(a, b), detour, a, b),
        weights_lt(walk_weight(g.without_edge(a, b), detour), g.weight(a, b)),
        walk_weight(g.without_edge(a, b), detour) == walk_weight(g, detour),
        goes(g, detour, a, b),
{
    lemma_edge_walk(g, a, b);
    assert(goes(g, seq![a, b], a, b) && within(seq![a, b], None));
    assert(attained(g, a, b, None, g.weight(a, b)));
    let p = choose|p: Seq<usize>| #[trigger]
        goes(g, p, a, b) && within(p, None) && weights_lt(walk_weight(g, p), g.weight(a, b));
    assert forall|i: int| 0 <= i < p.len() - 1 implies !(#[trigger] p[i] == a && p[i + 1]
        == b) by {
        if p[i] == a && p[i + 1] == b {
            lemma_walk_above_edge(g, p, i);
        }
    }
    lemma_walk_avoiding(g, a, b, p);
    p
}

/// Removing an edge that is not metric leaves a graph that is as short.
pub proof fn lemma_remove_keeps_short(g: GraphModel, a: usize, b: usize)
    requires
        g.has_edge(a, b),
        !is_metric_edge(g, a, b, None),
    ensures
        as_short(g.without_edge(a, b), g),
{
    let h = g.without_edge(a, b);
    let detour = lemma_detour_exists(g, a, b);
    assert forall|p: Seq<usize>, x: usize, y: usize|
        #![trigger goes(g, p, x, y)]
        goes(g, p, x, y) implies exists|q: Seq<usize>| #[trigger]
        goes(h, q, x, y) && weights_le(walk_weight(h, q), walk_weight(g, p)) by {
        let q = lemma_take_detour(g, a, b, detour, p, x, y);
        assert(goes(h, q, x, y) && weights_le(walk_weight(h, q), walk_weight(g, p)));
    }
}

/// In a subgraph that is as short, an edge is beaten exactly when it is in
/// the graph.
pub proof fn lemma_beaten_alike(h: GraphModel, g: GraphModel, u: usize, v: usize)
    requires
        h.subgraph_of(g),
        as_short(h, g),
        h.has_edge(u, v),
    ensures
        strictly_beaten(h, u, v, None) == strictly_beaten(g, u, v, None),
        is_metric_edge(h, u, v, None) == is_metric_edge(g, u, v, None),
{
    assert(h.edges.dom().contains((u, v)));
    let w = g.weight(u, v);
    if strictly_beaten(h, u, v, None) {
        let p = choose|p: Seq<usize>| #[trigger]
            goes(h, p, u, v) && within(p, None) && weights_lt(walk_weight(h, p), h.weight(u, v));
        lemma_walk_in_subgraph(h, g, p);
        assert(goes(g, p, u, v) && within(p, None) && weights_lt(walk_weight(g, p), w));
    }
    if strictly_beaten(g, u, v, None) {
        let p = choose|p: Seq<usize>| #[trigger]
            goes(g, p, u, v) && within(p, None) && weights_lt(walk_weight(g, p), w);
        let q = choose|q: Seq<usize>| #[trigger]
            goes(h, q, u, v) && weights_le(walk_weight(h, q), walk_weight(g, p));
        lemma_le_transitive(walk_weight(h, q), walk_weight(g, p), w);
        if weights_le(w, walk_weight(h, q)) {
            lemma_le_transitive(w, walk_weight(h, q), walk_weight(g, p));
        }
        assert(goes(h, q, u, v) && within(q, None) && weights_lt(walk_weight(h, q), h.weight(u, v)));
    }
    lemma_edge_walk(h, u, v);
    assert(goes(h, seq![u, v], u, v) && within(seq![u, v], None));
    lemma_edge_walk(g, u, v);
    assert(goes(g, seq![u, v], u, v) && within(seq![u, v], None));
}

/// The Pareto fronts of a graph and of a subgraph that is as short hold the
/// same weights.
pub proof fn lemma_fronts_alike(
    h: GraphModel,
    g: GraphModel,
    u: usize,
    v: usize,
    front_h: Seq<Weights>,
    front_g: Seq<Weights>,
    x: Weights,
)
    requires
        g.wf(),
        h.subgraph_of(g),
        as_short(h, g),
        is_pareto_front(h, u, v, None, front_h),
        is_pareto_front(g, u, v, None, front_g),
    ensures
        occurs(front_h, x) == occurs(front_g, x),
{
    if occurs(front_h, x) {
        let a = choose|a: int| 0 <= a < front_h.len() && #[trigger] front_h[a] == x;
        assert(attained(h, u, v, None, front_h[a]));
        let p = choose|p: Seq<usize>| #[trigger]
            goes(h, p, u, v) && within(p, None) && walk_weight(h, p) == x;
        lemma_walk_in_subgraph(h, g, p);
        // Some element of the front of `g` is below `x` ...
        assert(goes(g, p, u, v) && within(p, None));
        assert(dominated_by(front_g, walk_weight(g, p)));
        let b = choose|b: int| 0 <= b < front_g.len() && 0 <= b && weights_le(#[trigger] front_g[b], x);
        // ... and is the weight of a walk of `g`, which has a counterpart in `h` ...
        assert(attained(g, u, v, None, front_g[b]));
        let q = choose|q: Seq<usize>| #[trigger]
            goes(g, q, u, v) && within(q, None) && walk_weight(g, q) == front_g[b];
        let q2 = choose|q2: Seq<usize>| #[trigger]
            goes(h, q2, u, v) && weights_le(walk_weight(h, q2), walk_weight(g, q));
        assert(goes(h, q2, u, v) && within(q2, None));
        // ... that some element of the front of `h` is below: this is `x` itself.
        assert(dominated_by(front_h, walk_weight(h, q2)));
        let c = choose|c: int|
            0 <= c < front_h.len() && 0 <= c && weights_le(#[trigger] front_h[c], walk_weight(h, q2));
        lemma_le_transitive(front_h[c], walk_weight(h, q2), front_g[b]);
        lemma_le_transitive(front_h[c], front_g[b], x);
        if c != a {
            assert(!weights_le(front_h[c], front_h[a]));
        }
        lemma_walk_weight_canonical(g, q);
        lemma_walk_weight_canonical(g, p);
        lemma_le_antisymmetric(front_g[b], x);
    }
    if occurs(front_g, x) {
        let a = choose|a: int| 0 <= a < front_g.len() && #[trigger] front_g[a] == x;
        assert(attained(g, u, v, None, front_g[a]));
        let p = choose|p: Seq<usize>| #[trigger]
            goes(g, p, u, v) && within(p, None) && walk_weight(g, p) == x;
        let q = choose|q: Seq<usize>| #[trigger]
            goes(h, q, u, v) && weights_le(walk_weight(h, q), walk_weight(g, p));
        assert(goes(h, q, u, v) && within(q, None));
        assert(dominated_by(front_h, walk_weight(h, q)));
        let b = choose|b: int|
            0 <= b < front_h.len() && 0 <= b && weights_le(#[trigger] front_h[b], walk_weight(h, q));
        lemma_le_transitive(front_h[b], walk_weight(h, q), x);
        assert(attained(h, u, v, None, front_h[b]));
        let q2 = choose|q2: Seq<usize>| #[trigger]
            goes(h, q2, u, v) && within(q2, None) && walk_weight(h, q2) == front_h[b];
        lemma_walk_in_subgraph(h, g, q2);
        assert(goes(g, q2, u, v) && within(q2, None));
        assert(dominated_by(front_g, walk_weight(g, q2)));
        let c = choose|c: int|
            0 <= c < front_g.len() && 0 <= c && weights_le(#[trigger] front_g[c], front_h[b]);
        lemma_le_transitive(front_g[c], front_h[b], x);
        if c != a {
            assert(!weights_le(front_g[c], front_g[a]));
        }
        lemma_walk_weight_canonical(g, q2);
        lemma_walk_weight_canonical(g, p);
        lemma_le_antisymmetric(front_h[b], x);
    }
}

} // verus!
