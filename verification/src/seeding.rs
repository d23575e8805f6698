//! Edges that are known to be metric without a search.
//!
//! An edge between different nodes whose weight no other edge from the same
//! node is strictly below is metric.  So is, round by round, an edge that is
//! minimal among the edges not yet known and that no walk of two edges
//! through a known edge is `<=`.
use crate::detours::lemma_walk_above_edge;
use crate::edge_lists::{contains_pair, flatten};
use crate::multidistance::{MultiDistance, NodeID};
use crate::multigraph::{is_node_list, is_out_edges, GraphModel, MultidistanceGraph};
use crate::parallel::par_map;
use crate::pareto::{any_below, dominated_by, front_contains, models, multimin, occurs};
use crate::walks::{goes, is_walk, lemma_walk_split, strictly_beaten, walk_weight, within};
use crate::weights::{
    lemma_add_increases, lemma_add_zero, lemma_le_transitive, weights_add, weights_le, weights_lt,
    Weights,
};
use vstd::prelude::*;

verus! {

/// The edge from `u` to `v` is minimal among the edges from `u` to nodes
/// outside `skip`: it is one of them, and none of them is strictly below it.
pub open spec fn minimal_from(g: GraphModel, u: usize, v: usize, skip: Set<usize>) -> bool {
    &&& g.has_edge(u, v)
    &&& !skip.contains(v)
    &&& forall|x: usize| #[trigger]
        g.has_edge(u, x) && !skip.contains(x) ==> !weights_lt(g.weight(u, x), g.weight(u, v))
}

/// Some walk of two edges from `u`, the first of them to a node of `via`, is
/// `<=` the edge from `u` to `v`.
pub open spec fn undercut(g: GraphModel, u: usize, v: usize, via: Set<usize>) -> bool {
    exists|t: usize, x: usize|
        via.contains(t) && g.has_edge(u, t) && #[trigger] g.has_edge(t, x) && weights_le(
            weights_add(g.weight(u, t), g.weight(t, x)),
            g.weight(u, v),
        )
}

/// The targets of the edges from `u` that are minimal among all edges from
/// `u`.
pub open spec fn seeded(g: GraphModel, u: usize) -> Set<usize> {
    Set::new(|v: usize| minimal_from(g, u, v, Set::empty()))
}

/// The targets that one round adds to `known`: those of the edges from `u`
/// that are minimal among the edges to nodes outside `known` and that no walk
/// of two edges through `known` is `<=`.
pub open spec fn promoted(g: GraphModel, u: usize, known: Set<usize>) -> Set<usize> {
    Set::new(|v: usize| minimal_from(g, u, v, known) && !undercut(g, u, v, known))
}

/// The targets known after `n` rounds.
pub open spec fn known_after(g: GraphModel, u: usize, n: nat) -> Set<usize>
    decreases n,
{
    if n == 0 {
        seeded(g, u)
    } else {
        let known = known_after(g, u, (n - 1) as nat);
        known.union(promoted(g, u, known))
    }
}

/// The targets known after some round.
pub open spec fn known_targets(g: GraphModel, u: usize) -> Set<usize> {
    Set::new(|v: usize| exists|n: nat| (#[trigger] known_after(g, u, n)).contains(v))
}

/// What is known stays known, and is the target of an edge.
pub proof fn lemma_known_grows(g: GraphModel, u: usize, m: nat, n: nat)
    requires
        m <= n,
    ensures
        known_after(g, u, m).subset_of(known_after(g, u, n)),
        forall|v: usize| known_after(g, u, n).contains(v) ==> g.has_edge(u, v),
    decreases n,
{
    if n > 0 {
        if m < n {
            lemma_known_grows(g, u, m, (n - 1) as nat);
        } else {
            lemma_known_grows(g, u, (n - 1) as nat, (n - 1) as nat);
        }
    }
}

/// Once a round adds nothing, no later round does.
pub proof fn lemma_known_stable(g: GraphModel, u: usize, n: nat, m: nat)
    requires
        promoted(g, u, known_after(g, u, n)).subset_of(known_after(g, u, n)),
        n <= m,
    ensures
        known_after(g, u, m) == known_after(g, u, n),
    decreases m,
{
    if m > n {
        lemma_known_stable(g, u, n, (m - 1) as nat);
        assert(known_after(g, u, m) =~= known_after(g, u, n));
    }
}

/// Once a round adds nothing, what is known then is all that is ever known.
pub proof fn lemma_known_final(g: GraphModel, u: usize, n: nat)
    requires
        promoted(g, u, known_after(g, u, n)).subset_of(known_after(g, u, n)),
    ensures
        known_targets(g, u) == known_after(g, u, n),
{
    assert forall|v: usize| known_targets(g, u).contains(v) implies known_after(g, u, n).contains(
        v,
    ) by {
        let m = choose|m: nat| (#[trigger] known_after(g, u, m)).contains(v);
        if m <= n {
            lemma_known_grows(g, u, m, n);
        } else {
            lemma_known_stable(g, u, n, m);
        }
    }
    assert(known_targets(g, u) =~= known_after(g, u, n));
}

/// A walk of at least two edges is at least as heavy as its first two edges
/// together.
pub proof fn lemma_walk_above_two(g: GraphModel, p: Seq<usize>)
    requires
        is_walk(g, p),
        p.len() >= 3,
    ensures
        weights_le(weights_add(g.weight(p[0], p[1]), g.weight(p[1], p[2])), walk_weight(g, p)),
    decreases p.len(),
{
    lemma_walk_split(g, p, p[0], p[p.len() - 1]);
    let q = p.drop_last();
    if p.len() == 3 {
        lemma_walk_split(g, q, q[0], q[q.len() - 1]);
        assert(q.drop_last().len() == 1);
        lemma_add_zero(g.weight(p[0], p[1]));
        crate::weights::lemma_le_reflexive(walk_weight(g, p));
    } else {
        lemma_walk_above_two(g, q);
        lemma_add_increases(walk_weight(g, q), g.weight(p[p.len() - 2], p[p.len() - 1]));
        lemma_le_transitive(
            weights_add(g.weight(p[0], p[1]), g.weight(p[1], p[2])),
            walk_weight(g, q),
            walk_weight(g, p),
        );
    }
}

/// What is strictly below something that is `<=` a weight is strictly below
/// the weight.
pub proof fn lemma_lt_below(x: Weights, y: Weights, w: Weights)
    requires
        weights_le(x, y),
        weights_lt(y, w),
    ensures
        weights_lt(x, w),
{
    lemma_le_transitive(x, y, w);
    if weights_le(w, x) {
        lemma_le_transitive(w, x, y);
    }
}

/// A known edge between different nodes is metric: no walk is strictly below
/// it.
pub proof fn lemma_known_metric(g: GraphModel, u: usize, v: usize, n: nat)
    requires
        known_after(g, u, n).contains(v),
        u != v,
    ensures
        g.has_edge(u, v),
        !strictly_beaten(g, u, v, None),
    decreases n,
{
    let w = g.weight(u, v);
    lemma_known_grows(g, u, n, n);
    let earlier = n > 0 && known_after(g, u, (n - 1) as nat).contains(v);
    if earlier {
        lemma_known_metric(g, u, v, (n - 1) as nat);
    } else if strictly_beaten(g, u, v, None) {
        let p = choose|p: Seq<usize>| #[trigger]
            goes(g, p, u, v) && within(p, None) && weights_lt(walk_weight(g, p), w);
        assert(p.len() >= 2);
        assert(g.has_edge(p[0], p[1]));
        lemma_walk_above_edge(g, p, 0);
        lemma_lt_below(g.weight(u, p[1]), walk_weight(g, p), w);
        if n == 0 {
            assert(minimal_from(g, u, v, Set::empty()));
        } else {
            let known = known_after(g, u, (n - 1) as nat);
            assert(minimal_from(g, u, v, known) && !undercut(g, u, v, known));
            if known.contains(p[1]) {
                assert(p.len() >= 3);
                let one: int = 1;
                assert(g.has_edge(p[one], p[one + 1]));
                lemma_walk_above_two(g, p);
                lemma_le_transitive(
                    weights_add(g.weight(u, p[1]), g.weight(p[1], p[2])),
                    walk_weight(g, p),
                    w,
                );
            }
        }
    }
}

/// Every known edge between different nodes is metric.
pub proof fn lemma_known_targets_metric(g: GraphModel, u: usize, v: usize)
    requires
        known_targets(g, u).contains(v),
        u != v,
    ensures
        crate::walks::is_metric_edge(g, u, v, None),
{
    let n = choose|n: nat| (#[trigger] known_after(g, u, n)).contains(v);
    lemma_known_metric(g, u, v, n);
    crate::walks::lemma_edge_walk(g, u, v);
    assert(goes(g, seq![u, v], u, v) && within(seq![u, v], None));
}

/// Every entry of the list is an edge from `u`, with its weight.
pub open spec fn lists_edges(g: GraphModel, u: usize, list: Seq<(NodeID, MultiDistance)>) -> bool {
    forall|i: int|
        0 <= i < list.len() ==> g.has_edge(u, (#[trigger] list[i]).0.0) && list[i].1@ == g.weight(
            u,
            list[i].0.0,
        )
}

/// The list holds edges from `u`, and the targets of the edges from `u` that
/// it holds are those in `targets`.
pub open spec fn lists_targets(
    g: GraphModel,
    u: usize,
    list: Seq<(NodeID, MultiDistance)>,
    targets: Set<usize>,
) -> bool {
    &&& lists_edges(g, u, list)
    &&& forall|i: int| 0 <= i < list.len() ==> targets.contains((#[trigger] list[i]).0.0)
    &&& forall|v: usize|
        g.has_edge(u, v) && targets.contains(v) ==> exists|i: int|
            0 <= i < list.len() && (#[trigger] list[i]).0.0 == v
}

/// For each entry, whether no entry of the list is strictly below it.
fn minimal_flags(list: &Vec<(NodeID, MultiDistance)>) -> (r: Vec<bool>)
    ensures
        r@.len() == list@.len(),
        forall|j: int|
            0 <= j < r@.len() ==> #[trigger] r@[j] == (forall|i: int|
                0 <= i < list@.len() ==> !weights_lt((#[trigger] list@[i]).1@, list@[j].1@)),
{
    let mut weights: Vec<MultiDistance> = Vec::new();
    let mut i: usize = 0;
    while i < list.len()
        invariant
            i <= list.len(),
            weights@.len() == i,
            forall|k: int| 0 <= k < i ==> (#[trigger] weights@[k])@ == list@[k].1@,
            forall|k: int| 0 <= k < i ==> crate::weights::canonical((#[trigger] weights@[k])@),
        decreases list.len() - i,
    {
        let w = list[i].1.clone();
        weights.push(w);
        i += 1;
    }
    let mins = multimin(weights.as_slice());
    let mut r: Vec<bool> = Vec::new();
    let mut j: usize = 0;
    while j < list.len()
        invariant
            j <= list.len(),
            r@.len() == j,
            weights@.len() == list@.len(),
            forall|k: int| 0 <= k < weights@.len() ==> (#[trigger] weights@[k])@ == list@[k].1@,
            forall|k: int|
                0 <= k < weights@.len() ==> crate::weights::canonical((#[trigger] weights@[k])@),
            models(mins@) == crate::pareto::multimin_spec(models(weights@)),
            forall|k: int|
                0 <= k < j ==> #[trigger] r@[k] == (forall|i: int|
                    0 <= i < list@.len() ==> !weights_lt((#[trigger] list@[i]).1@, list@[k].1@)),
        decreases list.len() - j,
    {
        let flag = front_contains(&mins, &list[j].1);
        proof {
            let s = models(weights@);
            let x = list@[j as int].1@;
            assert(s[j as int] == x);
            assert forall|i: int| 0 <= i < s.len() implies crate::weights::canonical(
                #[trigger] s[i],
            ) by {
                assert(s[i] == weights@[i]@);
            }
            crate::pareto::lemma_multimin_holds(s, x);
            assert(occurs(s, x));
            assert((forall|i: int| 0 <= i < s.len() ==> !weights_lt(#[trigger] s[i], x)) == (forall|
                i: int,
            | 0 <= i < list@.len() ==> !weights_lt((#[trigger] list@[i]).1@, x))) by {
                if forall|i: int| 0 <= i < s.len() ==> !weights_lt(#[trigger] s[i], x) {
                    assert forall|i: int| 0 <= i < list@.len() implies !weights_lt(
                        (#[trigger] list@[i]).1@,
                        x,
                    ) by {
                        assert(s[i] == list@[i].1@);
                    }
                }
                if forall|i: int| 0 <= i < list@.len() ==> !weights_lt((#[trigger] list@[i]).1@, x) {
                    assert forall|i: int| 0 <= i < s.len() implies !weights_lt(
                        #[trigger] s[i],
                        x,
                    ) by {
                        assert(s[i] == list@[i].1@);
                    }
                }
            }
        }
        r.push(flag);
        j += 1;
    }
    r
}

/// The weights of the walks of two edges from the source whose first edge is
/// in `certain`.
fn two_hop_dists<G: MultidistanceGraph>(
    graph: &G,
    certain: &Vec<(NodeID, MultiDistance)>,
) -> (r: Vec<MultiDistance>)
    requires
        graph.inv(),
    ensures
        forall|c: Weights|
            dominated_by(models(r@), c) <==> exists|i: int, x: usize|
                0 <= i < certain@.len() && #[trigger] graph.model().has_edge(
                    (#[trigger] certain@[i]).0.0,
                    x,
                ) && weights_le(
                    weights_add(certain@[i].1@, graph.model().weight(certain@[i].0.0, x)),
                    c,
                ),
{
    let ghost g = graph.model();
    let mut r: Vec<MultiDistance> = Vec::new();
    let mut i: usize = 0;
    while i < certain.len()
        invariant
            i <= certain.len(),
            graph.inv(),
            g == graph.model(),
            forall|c: Weights|
                dominated_by(models(r@), c) <==> exists|k: int, x: usize|
                    0 <= k < i && #[trigger] g.has_edge((#[trigger] certain@[k]).0.0, x)
                        && weights_le(weights_add(certain@[k].1@, g.weight(certain@[k].0.0, x)), c),
        decreases certain.len() - i,
    {
        let middle = certain[i].0;
        let onward = graph.neighbor_edges(&middle);
        let ghost start = models(r@);
        let mut j: usize = 0;
        while j < onward.len()
            invariant
                j <= onward.len(),
                i < certain.len(),
                middle == certain@[i as int].0,
                is_out_edges(g, middle.0, onward@),
                models(r@).len() == start.len() + j,
                forall|k: int| 0 <= k < start.len() ==> models(r@)[k] == start[k],
                forall|k: int|
                    0 <= k < j ==> #[trigger] models(r@)[start.len() + k] == weights_add(
                        certain@[i as int].1@,
                        onward@[k].1@,
                    ),
            decreases onward.len() - j,
        {
            let ghost before = r@;
            r.push(certain[i].1.plus(&onward[j].1));
            proof {
                assert forall|k: int| 0 <= k < start.len() implies models(r@)[k] == start[k] by {
                    assert(models(r@)[k] == models(before)[k]);
                }
                assert forall|k: int| 0 <= k < j + 1 implies #[trigger] models(r@)[start.len() + k]
                    == weights_add(certain@[i as int].1@, onward@[k].1@) by {
                    if k < j {
                        assert(models(r@)[start.len() + k] == models(before)[start.len() + k]);
                    }
                }
            }
            j += 1;
        }
        proof {
            let now = models(r@);
            let d = certain@[i as int].1@;
            assert forall|c: Weights|
                dominated_by(now, c) <==> exists|k: int, x: usize|
                    0 <= k < i + 1 && #[trigger] g.has_edge((#[trigger] certain@[k]).0.0, x)
                        && weights_le(
                        weights_add(certain@[k].1@, g.weight(certain@[k].0.0, x)),
                        c,
                    ) by {
                if dominated_by(now, c) {
                    let n = choose|n: int| 0 <= n < now.len() && 0 <= n && weights_le(#[trigger] now[n], c);
                    if n < start.len() {
                        assert(weights_le(start[n], c));
                        assert(dominated_by(start, c));
                        let (k, x) = choose|k: int, x: usize|
                            0 <= k < i && #[trigger] g.has_edge((#[trigger] certain@[k]).0.0, x)
                                && weights_le(
                                weights_add(certain@[k].1@, g.weight(certain@[k].0.0, x)),
                                c,
                            );
                        assert(0 <= k < i + 1 && g.has_edge(certain@[k].0.0, x));
                    } else {
                        let m = n - start.len();
                        assert(now[start.len() + m] == weights_add(d, onward@[m].1@));
                        let x = onward@[m].0.0;
                        assert(g.has_edge(middle.0, x));
                        assert(g.has_edge(certain@[i as int].0.0, x));
                    }
                }
                if exists|k: int, x: usize|
                    0 <= k < i + 1 && #[trigger] g.has_edge((#[trigger] certain@[k]).0.0, x)
                        && weights_le(
                        weights_add(certain@[k].1@, g.weight(certain@[k].0.0, x)),
                        c,
                    ) {
                    let (k, x) = choose|k: int, x: usize|
                        0 <= k < i + 1 && #[trigger] g.has_edge((#[trigger] certain@[k]).0.0, x)
                            && weights_le(
                            weights_add(certain@[k].1@, g.weight(certain@[k].0.0, x)),
                            c,
                        );
                    if k < i {
                        assert(dominated_by(start, c));
                        let n = choose|n: int|
                            0 <= n < start.len() && 0 <= n && weights_le(#[trigger] start[n], c);
                        assert(now[n] == start[n]);
                        assert(weights_le(now[n], c));
                    } else {
                        assert(g.has_edge(middle.0, x));
                        let m = choose|m: int|
                            0 <= m < onward@.len() && (#[trigger] onward@[m]).0 == NodeID(x);
                        assert(onward@[m].1@ == g.weight(middle.0, x));
                        assert(now[start.len() + m] == weights_add(d, onward@[m].1@));
                        assert(weights_le(now[start.len() + m], c));
                    }
                }
            }
        }
        i += 1;
    }
    r
}

/// The targets outside `known`.
pub open spec fn unknown(known: Set<usize>) -> Set<usize> {
    Set::new(|v: usize| !known.contains(v))
}

/// One round of promotion for `source`: of the edges in `uncertain`, those
/// that are minimal among them and that no walk of two edges through an edge
/// of `certain` is `<=` come first, the others second.
fn promote_round<G: MultidistanceGraph>(
    graph: &G,
    source: NodeID,
    certain: &Vec<(NodeID, MultiDistance)>,
    uncertain: &Vec<(NodeID, MultiDistance)>,
    Ghost(known): Ghost<Set<usize>>,
) -> (r: (Vec<(NodeID, MultiDistance)>, Vec<(NodeID, MultiDistance)>))
    requires
        graph.inv(),
        lists_targets(graph.model(), source.0, certain@, known),
        lists_targets(graph.model(), source.0, uncertain@, unknown(known)),
    ensures
        lists_targets(graph.model(), source.0, r.0@, promoted(graph.model(), source.0, known)),
        lists_targets(
            graph.model(),
            source.0,
            r.1@,
            unknown(known.union(promoted(graph.model(), source.0, known))),
        ),
        r.0@.len() + r.1@.len() == uncertain@.len(),
{
    let ghost g = graph.model();
    let ghost u = source.0;
    let two_hop_known_metric_dists = two_hop_dists(graph, certain);
    let flags = minimal_flags(uncertain);
    let mut up: Vec<(NodeID, MultiDistance)> = Vec::new();
    let mut rest: Vec<(NodeID, MultiDistance)> = Vec::new();
    let ghost gain = promoted(g, u, known);
    let mut j: usize = 0;
    while j < uncertain.len()
        invariant
            j <= uncertain.len(),
            g == graph.model(),
            u == source.0,
            gain == promoted(g, u, known),
            lists_targets(g, u, certain@, known),
            lists_targets(g, u, uncertain@, unknown(known)),
            flags@.len() == uncertain@.len(),
            forall|k: int|
                0 <= k < flags@.len() ==> #[trigger] flags@[k] == (forall|i: int|
                    0 <= i < uncertain@.len() ==> !weights_lt(
                        (#[trigger] uncertain@[i]).1@,
                        uncertain@[k].1@,
                    )),
            forall|c: Weights|
                dominated_by(models(two_hop_known_metric_dists@), c) <==> exists|i: int, x: usize|
                    0 <= i < certain@.len() && #[trigger] g.has_edge(
                        (#[trigger] certain@[i]).0.0,
                        x,
                    ) && weights_le(
                        weights_add(certain@[i].1@, g.weight(certain@[i].0.0, x)),
                        c,
                    ),
            up@.len() + rest@.len() == j,
            lists_edges(g, u, up@),
            lists_edges(g, u, rest@),
            forall|i: int| 0 <= i < up@.len() ==> gain.contains((#[trigger] up@[i]).0.0),
            forall|i: int|
                0 <= i < rest@.len() ==> !known.contains((#[trigger] rest@[i]).0.0)
                    && !gain.contains(rest@[i].0.0),
            forall|k: int|
                0 <= k < j ==> (if gain.contains((#[trigger] uncertain@[k]).0.0) {
                    exists|i: int| 0 <= i < up@.len() && (#[trigger] up@[i]).0 == uncertain@[k].0
                } else {
                    exists|i: int|
                        0 <= i < rest@.len() && (#[trigger] rest@[i]).0 == uncertain@[k].0
                }),
        decreases uncertain.len() - j,
    {
        let target = uncertain[j].0;
        let weight = uncertain[j].1.clone();
        let minimal = flags[j];
        let beaten = any_below(two_hop_known_metric_dists.as_slice(), 0, &weight);
        let ghost v = target.0;
        let ghost up_before = up@;
        let ghost rest_before = rest@;
        proof {
            assert(g.has_edge(u, uncertain@[j as int].0.0));
            assert(unknown(known).contains(uncertain@[j as int].0.0));
            // The flag says that the edge is minimal among the uncertain ones.
            assert(minimal == minimal_from(g, u, v, known)) by {
                if minimal {
                    assert forall|x: usize| #[trigger] g.has_edge(u, x) && !known.contains(
                        x,
                    ) implies !weights_lt(g.weight(u, x), g.weight(u, v)) by {
                        assert(unknown(known).contains(x));
                        let i = choose|i: int|
                            0 <= i < uncertain@.len() && (#[trigger] uncertain@[i]).0.0 == x;
                        assert(!weights_lt(uncertain@[i].1@, uncertain@[j as int].1@));
                    }
                }
                if minimal_from(g, u, v, known) {
                    assert forall|i: int| 0 <= i < uncertain@.len() implies !weights_lt(
                        (#[trigger] uncertain@[i]).1@,
                        uncertain@[j as int].1@,
                    ) by {
                        let x = uncertain@[i].0.0;
                        assert(g.has_edge(u, x) && unknown(known).contains(x));
                    }
                }
            }
            // The composites say whether the edge is undercut.
            assert(beaten == dominated_by(models(two_hop_known_metric_dists@), weight@));
            assert(weight@ == g.weight(u, v));
            assert(beaten == undercut(g, u, v, known)) by {
                if beaten {
                    let (i, x) = choose|i: int, x: usize|
                        0 <= i < certain@.len() && #[trigger] g.has_edge(
                            (#[trigger] certain@[i]).0.0,
                            x,
                        ) && weights_le(
                            weights_add(certain@[i].1@, g.weight(certain@[i].0.0, x)),
                            weight@,
                        );
                    let t = certain@[i].0.0;
                    assert(known.contains(t) && g.has_edge(u, t) && g.has_edge(t, x));
                }
                if undercut(g, u, v, known) {
                    let (t, x) = choose|t: usize, x: usize|
                        known.contains(t) && g.has_edge(u, t) && #[trigger] g.has_edge(t, x)
                            && weights_le(
                            weights_add(g.weight(u, t), g.weight(t, x)),
                            g.weight(u, v),
                        );
                    let i = choose|i: int|
                        0 <= i < certain@.len() && (#[trigger] certain@[i]).0.0 == t;
                    assert(g.has_edge(certain@[i].0.0, x));
                    assert(certain@[i].1@ == g.weight(u, t));
                    assert(dominated_by(models(two_hop_known_metric_dists@), weight@));
                }
            }
        }
        if minimal && !beaten {
            up.push((target, weight));
        } else {
            rest.push((target, weight));
        }
        proof {
            assert forall|k: int| 0 <= k < j + 1 implies (if gain.contains(
                (#[trigger] uncertain@[k]).0.0,
            ) {
                exists|i: int| 0 <= i < up@.len() && (#[trigger] up@[i]).0 == uncertain@[k].0
            } else {
                exists|i: int| 0 <= i < rest@.len() && (#[trigger] rest@[i]).0 == uncertain@[k].0
            }) by {
                if k < j {
                    if gain.contains(uncertain@[k].0.0) {
                        let i = choose|i: int|
                            0 <= i < up_before.len() && (#[trigger] up_before[i]).0
                                == uncertain@[k].0;
                        assert(up@[i].0 == uncertain@[k].0);
                    } else {
                        let i = choose|i: int|
                            0 <= i < rest_before.len() && (#[trigger] rest_before[i]).0
                                == uncertain@[k].0;
                        assert(rest@[i].0 == uncertain@[k].0);
                    }
                } else {
                    if minimal && !beaten {
                        assert(up@[up@.len() - 1].0 == uncertain@[k].0);
                    } else {
                        assert(rest@[rest@.len() - 1].0 == uncertain@[k].0);
                    }
                }
            }
            assert forall|i: int| 0 <= i < up@.len() implies gain.contains(
                (#[trigger] up@[i]).0.0,
            ) by {
                if i < up_before.len() {
                    assert(up@[i] == up_before[i]);
                }
            }
            assert forall|i: int| 0 <= i < rest@.len() implies !known.contains(
                (#[trigger] rest@[i]).0.0,
            ) && !gain.contains(rest@[i].0.0) by {
                if i < rest_before.len() {
                    assert(rest@[i] == rest_before[i]);
                }
            }
            assert(lists_edges(g, u, up@)) by {
                assert forall|i: int| 0 <= i < up@.len() implies g.has_edge(
                    u,
                    (#[trigger] up@[i]).0.0,
                ) && up@[i].1@ == g.weight(u, up@[i].0.0) by {
                    if i < up_before.len() {
                        assert(up@[i] == up_before[i]);
                    }
                }
            }
            assert(lists_edges(g, u, rest@)) by {
                assert forall|i: int| 0 <= i < rest@.len() implies g.has_edge(
                    u,
                    (#[trigger] rest@[i]).0.0,
                ) && rest@[i].1@ == g.weight(u, rest@[i].0.0) by {
                    if i < rest_before.len() {
                        assert(rest@[i] == rest_before[i]);
                    }
                }
            }
        }
        j += 1;
    }
    proof {
        let left = unknown(known.union(gain));
        assert forall|v: usize| g.has_edge(u, v) && gain.contains(v) implies exists|i: int|
            0 <= i < up@.len() && (#[trigger] up@[i]).0.0 == v by {
            assert(unknown(known).contains(v));
            let k = choose|k: int| 0 <= k < uncertain@.len() && (#[trigger] uncertain@[k]).0.0 == v;
            let i = choose|i: int| 0 <= i < up@.len() && (#[trigger] up@[i]).0 == uncertain@[k].0;
            assert(up@[i].0.0 == v);
        }
        assert forall|v: usize| g.has_edge(u, v) && left.contains(v) implies exists|i: int|
            0 <= i < rest@.len() && (#[trigger] rest@[i]).0.0 == v by {
            assert(unknown(known).contains(v));
            let k = choose|k: int| 0 <= k < uncertain@.len() && (#[trigger] uncertain@[k]).0.0 == v;
            let i = choose|i: int|
                0 <= i < rest@.len() && (#[trigger] rest@[i]).0 == uncertain@[k].0;
            assert(rest@[i].0.0 == v);
        }
    }
    (up, rest)
}

/// The targets to which `known` holds an edge from `source`.
pub open spec fn targets_known(known: Seq<(NodeID, NodeID)>, source: NodeID) -> Set<usize> {
    Set::new(|v: usize| known.contains((source, NodeID(v))))
}

/// The edges from `source` in two lists: those that `known` holds, and the
/// others.
fn split_by_known(
    neighbors: &Vec<(NodeID, MultiDistance)>,
    source: NodeID,
    known: &Vec<(NodeID, NodeID)>,
    Ghost(g): Ghost<GraphModel>,
) -> (r: (Vec<(NodeID, MultiDistance)>, Vec<(NodeID, MultiDistance)>))
    requires
        is_out_edges(g, source.0, neighbors@),
    ensures
        lists_targets(g, source.0, r.0@, targets_known(known@, source)),
        lists_targets(g, source.0, r.1@, unknown(targets_known(known@, source))),
{
    let ghost u = source.0;
    let ghost inside = targets_known(known@, source);
    let mut certain: Vec<(NodeID, MultiDistance)> = Vec::new();
    let mut uncertain: Vec<(NodeID, MultiDistance)> = Vec::new();
    let mut j: usize = 0;
    while j < neighbors.len()
        invariant
            j <= neighbors.len(),
            u == source.0,
            inside == targets_known(known@, source),
            is_out_edges(g, u, neighbors@),
            lists_edges(g, u, certain@),
            lists_edges(g, u, uncertain@),
            forall|i: int| 0 <= i < certain@.len() ==> inside.contains((#[trigger] certain@[i]).0.0),
            forall|i: int|
                0 <= i < uncertain@.len() ==> !inside.contains((#[trigger] uncertain@[i]).0.0),
            forall|k: int|
                0 <= k < j ==> (if inside.contains((#[trigger] neighbors@[k]).0.0) {
                    exists|i: int|
                        0 <= i < certain@.len() && (#[trigger] certain@[i]).0 == neighbors@[k].0
                } else {
                    exists|i: int|
                        0 <= i < uncertain@.len() && (#[trigger] uncertain@[i]).0
                            == neighbors@[k].0
                }),
        decreases neighbors.len() - j,
    {
        let target = neighbors[j].0;
        let weight = neighbors[j].1.clone();
        let ghost certain_before = certain@;
        let ghost uncertain_before = uncertain@;
        let is_known = contains_pair(known, source, target);
        proof {
            assert(target == NodeID(target.0));
            assert(is_known == inside.contains(target.0));
            assert(g.has_edge(u, neighbors@[j as int].0.0));
        }
        if is_known {
            certain.push((target, weight));
        } else {
            uncertain.push((target, weight));
        }
        proof {
            assert forall|k: int| 0 <= k < j + 1 implies (if inside.contains(
                (#[trigger] neighbors@[k]).0.0,
            ) {
                exists|i: int|
                    0 <= i < certain@.len() && (#[trigger] certain@[i]).0 == neighbors@[k].0
            } else {
                exists|i: int|
                    0 <= i < uncertain@.len() && (#[trigger] uncertain@[i]).0 == neighbors@[k].0
            }) by {
                if k < j {
                    if inside.contains(neighbors@[k].0.0) {
                        let i = choose|i: int|
                            0 <= i < certain_before.len() && (#[trigger] certain_before[i]).0
                                == neighbors@[k].0;
                        assert(certain@[i].0 == neighbors@[k].0);
                    } else {
                        let i = choose|i: int|
                            0 <= i < uncertain_before.len() && (#[trigger] uncertain_before[i]).0
                                == neighbors@[k].0;
                        assert(uncertain@[i].0 == neighbors@[k].0);
                    }
                } else {
                    if is_known {
                        assert(certain@[certain@.len() - 1].0 == neighbors@[k].0);
                    } else {
                        assert(uncertain@[uncertain@.len() - 1].0 == neighbors@[k].0);
                    }
                }
            }
            assert forall|i: int| 0 <= i < certain@.len() implies inside.contains(
                (#[trigger] certain@[i]).0.0,
            ) && g.has_edge(u, certain@[i].0.0) && certain@[i].1@ == g.weight(u, certain@[i].0.0) by {
                if i < certain_before.len() {
                    assert(certain@[i] == certain_before[i]);
                }
            }
            assert forall|i: int| 0 <= i < uncertain@.len() implies !inside.contains(
                (#[trigger] uncertain@[i]).0.0,
            ) && g.has_edge(u, uncertain@[i].0.0) && uncertain@[i].1@ == g.weight(
                u,
                uncertain@[i].0.0,
            ) by {
                if i < uncertain_before.len() {
                    assert(uncertain@[i] == uncertain_before[i]);
                }
            }
        }
        j += 1;
    }
    proof {
        assert forall|v: usize| g.has_edge(u, v) && inside.contains(v) implies exists|i: int|
            0 <= i < certain@.len() && (#[trigger] certain@[i]).0.0 == v by {
            let k = choose|k: int|
                0 <= k < neighbors@.len() && (#[trigger] neighbors@[k]).0 == NodeID(v);
            let i = choose|i: int|
                0 <= i < certain@.len() && (#[trigger] certain@[i]).0 == neighbors@[k].0;
            assert(certain@[i].0.0 == v);
        }
        assert forall|v: usize| g.has_edge(u, v) && unknown(inside).contains(v) implies exists|
            i: int,
        | 0 <= i < uncertain@.len() && (#[trigger] uncertain@[i]).0.0 == v by {
            let k = choose|k: int|
                0 <= k < neighbors@.len() && (#[trigger] neighbors@[k]).0 == NodeID(v);
            let i = choose|i: int|
                0 <= i < uncertain@.len() && (#[trigger] uncertain@[i]).0 == neighbors@[k].0;
            assert(uncertain@[i].0.0 == v);
        }
    }
    (certain, uncertain)
}

/// Seeding is a round of promotion in which nothing is known yet.
pub proof fn lemma_seeded_is_first_round(g: GraphModel, u: usize)
    ensures
        promoted(g, u, Set::empty()) == seeded(g, u),
{
    assert(promoted(g, u, Set::empty()) =~= seeded(g, u));
}

/// `list` holds the edges from `source` whose targets are in `targets`.
pub open spec fn holds_edges_from(
    g: GraphModel,
    source: NodeID,
    targets: Set<usize>,
    list: Seq<(NodeID, NodeID)>,
) -> bool {
    forall|e: (NodeID, NodeID)| #[trigger]
        list.contains(e) <==> e.0 == source && g.has_edge(source.0, e.1.0) && targets.contains(
            e.1.0,
        )
}

/// The edges from `source` that are minimal among all edges from `source`.
fn seed_from<G: MultidistanceGraph>(graph: &G, source: NodeID) -> (r: Vec<(NodeID, NodeID)>)
    requires
        graph.inv(),
    ensures
        holds_edges_from(graph.model(), source, seeded(graph.model(), source.0), r@),
{
    let ghost g = graph.model();
    let neighbors = graph.neighbor_edges(&source);
    let nothing: Vec<(NodeID, MultiDistance)> = Vec::new();
    proof {
        lemma_seeded_is_first_round(g, source.0);
        assert(lists_targets(g, source.0, neighbors@, unknown(Set::empty()))) by {
            assert forall|v: usize|
                g.has_edge(source.0, v) && unknown(Set::empty()).contains(v) implies exists|i: int|
                0 <= i < neighbors@.len() && (#[trigger] neighbors@[i]).0.0 == v by {
                let i = choose|i: int|
                    0 <= i < neighbors@.len() && (#[trigger] neighbors@[i]).0 == NodeID(v);
                assert(neighbors@[i].0.0 == v);
            }
        }
    }
    let (minimal, _) = promote_round(graph, source, &nothing, &neighbors, Ghost(Set::empty()));
    let mut r: Vec<(NodeID, NodeID)> = Vec::new();
    let mut i: usize = 0;
    while i < minimal.len()
        invariant
            i <= minimal.len(),
            r@.len() == i,
            forall|k: int| 0 <= k < i ==> #[trigger] r@[k] == (source, minimal@[k].0),
        decreases minimal.len() - i,
    {
        r.push((source, minimal[i].0));
        i += 1;
    }
    proof {
        assert forall|e: (NodeID, NodeID)| #[trigger]
            r@.contains(e) <==> e.0 == source && g.has_edge(source.0, e.1.0) && seeded(
                g,
                source.0,
            ).contains(e.1.0) by {
            if r@.contains(e) {
                let k = choose|k: int| 0 <= k < r@.len() && r@[k] == e;
                assert(g.has_edge(source.0, minimal@[k].0.0));
            }
            if e.0 == source && g.has_edge(source.0, e.1.0) && seeded(g, source.0).contains(e.1.0) {
                let k = choose|k: int|
                    0 <= k < minimal@.len() && (#[trigger] minimal@[k]).0.0 == e.1.0;
                assert(r@[k] == e);
            }
        }
    }
    r
}

/// The edges that are minimal among the edges from their source; the sources
/// are examined in parallel.
pub fn one_step_metric_edges<G: MultidistanceGraph + Sync>(graph: &G) -> (r: Vec<(NodeID, NodeID)>)
    requires
        graph.inv(),
    ensures
        forall|e: (NodeID, NodeID)| #[trigger]
            r@.contains(e) <==> seeded(graph.model(), e.0.0).contains(e.1.0),
{
    let nodes = graph.nodes();
    let seed = |source: &NodeID| -> (found: Vec<(NodeID, NodeID)>)
        requires
            graph.inv(),
        ensures
            holds_edges_from(graph.model(), *source, seeded(graph.model(), source.0), found@),
        { seed_from(graph, *source) };
    let lists = par_map(&nodes, seed);
    let r = flatten(&lists);
    proof {
        let g = graph.model();
        graph.lemma_model_wf();
        assert forall|e: (NodeID, NodeID)| #[trigger]
            r@.contains(e) <==> seeded(g, e.0.0).contains(e.1.0) by {
            if r@.contains(e) {
                let i = choose|i: int| 0 <= i < lists@.len() && (#[trigger] lists@[i])@.contains(e);
                assert(holds_edges_from(g, nodes@[i], seeded(g, nodes@[i].0), lists@[i]@));
            }
            if seeded(g, e.0.0).contains(e.1.0) {
                assert(g.has_edge(e.0.0, e.1.0));
                assert(g.edges.dom().contains((e.0.0, e.1.0)));
                assert(g.nodes.contains(e.0.0));
                assert(nodes@.contains(NodeID(e.0.0)));
                let i = choose|i: int| 0 <= i < nodes@.len() && nodes@[i] == NodeID(e.0.0);
                assert(holds_edges_from(g, nodes@[i], seeded(g, nodes@[i].0), lists@[i]@));
                assert(lists@[i]@.contains(e));
            }
        }
    }
    r
}

/// Refines what is known of the edges from `source` round by round, until a
/// round promotes nothing.
fn refine_source<G: MultidistanceGraph>(
    graph: &G,
    source: NodeID,
    known_metric_edges: &mut Vec<(NodeID, NodeID)>,
)
    requires
        graph.inv(),
        forall|v: usize|
            old(known_metric_edges)@.contains((source, NodeID(v))) <==> seeded(
                graph.model(),
                source.0,
            ).contains(v),
    ensures
        forall|e: (NodeID, NodeID)| #[trigger]
            final(known_metric_edges)@.contains(e) <==> (if e.0 == source {
                known_targets(graph.model(), source.0).contains(e.1.0)
            } else {
                old(known_metric_edges)@.contains(e)
            }),
{
    let ghost g = graph.model();
    let ghost u = source.0;
    let ghost start = known_metric_edges@;
    let neighbors = graph.neighbor_edges(&source);
    let (mut certain, mut uncertain) = split_by_known(
        &neighbors,
        source,
        known_metric_edges,
        Ghost(g),
    );
    let ghost mut rounds: nat = 0;
    let mut continue_search = true;
    proof {
        assert(targets_known(start, source) =~= known_after(g, u, 0));
    }
    while continue_search
        invariant
            graph.inv(),
            g == graph.model(),
            u == source.0,
            lists_targets(g, u, certain@, known_after(g, u, rounds)),
            lists_targets(g, u, uncertain@, unknown(known_after(g, u, rounds))),
            forall|e: (NodeID, NodeID)| #[trigger]
                known_metric_edges@.contains(e) <==> (if e.0 == source {
                    known_after(g, u, rounds).contains(e.1.0)
                } else {
                    start.contains(e)
                }),
            !continue_search ==> known_targets(g, u) == known_after(g, u, rounds),
        decreases (if continue_search { 1nat } else { 0nat }), uncertain@.len(),
    {
        let ghost known = known_after(g, u, rounds);
        let (promoted_edges, remainder) = promote_round(
            graph,
            source,
            &certain,
            &uncertain,
            Ghost(known),
        );
        if promoted_edges.len() == 0 {
            proof {
                assert forall|v: usize| promoted(g, u, known).contains(v) implies known.contains(
                    v,
                ) by {
                    assert(g.has_edge(u, v));
                }
                lemma_known_final(g, u, rounds);
            }
            continue_search = false;
        } else {
            let ghost next = known_after(g, u, rounds + 1);
            let mut i: usize = 0;
            let ghost known_list = known_metric_edges@;
            let ghost certain_list = certain@;
            while i < promoted_edges.len()
                invariant
                    i <= promoted_edges.len(),
                    known_metric_edges@.len() == known_list.len() + i,
                    forall|k: int|
                        0 <= k < known_list.len() ==> known_metric_edges@[k] == known_list[k],
                    forall|k: int|
                        0 <= k < i ==> #[trigger] known_metric_edges@[known_list.len() + k] == (
                            source,
                            promoted_edges@[k].0,
                        ),
                    certain@.len() == certain_list.len() + i,
                    forall|k: int| 0 <= k < certain_list.len() ==> certain@[k] == certain_list[k],
                    forall|k: int|
                        0 <= k < i ==> (#[trigger] certain@[certain_list.len() + k]).0
                            == promoted_edges@[k].0 && certain@[certain_list.len() + k].1@
                            == promoted_edges@[k].1@,
                decreases promoted_edges.len() - i,
            {
                known_metric_edges.push((source, promoted_edges[i].0));
                certain.push((promoted_edges[i].0, promoted_edges[i].1.clone()));
                i += 1;
            }
            proof {
                let gain = promoted(g, u, known);
                assert(next =~= known.union(gain));
                assert forall|e: (NodeID, NodeID)| #[trigger]
                    known_metric_edges@.contains(e) <==> (if e.0 == source {
                        next.contains(e.1.0)
                    } else {
                        start.contains(e)
                    }) by {
                    if known_metric_edges@.contains(e) {
                        let k = choose|k: int|
                            0 <= k < known_metric_edges@.len() && known_metric_edges@[k] == e;
                        if k < known_list.len() {
                            assert(known_list[k] == e);
                            assert(known_list.contains(e));
                        } else {
                            let m = k - known_list.len();
                            assert(known_metric_edges@[known_list.len() + m] == (
                                source,
                                promoted_edges@[m].0,
                            ));
                            assert(gain.contains(promoted_edges@[m].0.0));
                        }
                    }
                    if known_list.contains(e) {
                        let k = choose|k: int| 0 <= k < known_list.len() && known_list[k] == e;
                        assert(known_metric_edges@[k] == e);
                    }
                    if e.0 == source && gain.contains(e.1.0) {
                        assert(g.has_edge(u, e.1.0));
                        let m = choose|m: int|
                            0 <= m < promoted_edges@.len() && (#[trigger] promoted_edges@[m]).0.0
                                == e.1.0;
                        assert(known_metric_edges@[known_list.len() + m] == e);
                    }
                }
                assert(lists_targets(g, u, certain@, next)) by {
                    assert forall|k: int| 0 <= k < certain@.len() implies g.has_edge(
                        u,
                        (#[trigger] certain@[k]).0.0,
                    ) && certain@[k].1@ == g.weight(u, certain@[k].0.0) && next.contains(
                        certain@[k].0.0,
                    ) by {
                        if k < certain_list.len() {
                            assert(certain@[k] == certain_list[k]);
                        } else {
                            let m = k - certain_list.len();
                            assert(certain@[certain_list.len() + m].0 == promoted_edges@[m].0);
                            assert(g.has_edge(u, promoted_edges@[m].0.0));
                        }
                    }
                    assert forall|v: usize| g.has_edge(u, v) && next.contains(v) implies exists|
                        k: int,
                    | 0 <= k < certain@.len() && (#[trigger] certain@[k]).0.0 == v by {
                        if known.contains(v) {
                            let k = choose|k: int|
                                0 <= k < certain_list.len() && (#[trigger] certain_list[k]).0.0
                                    == v;
                            assert(certain@[k].0.0 == v);
                        } else {
                            let m = choose|m: int|
                                0 <= m < promoted_edges@.len() && (
                                #[trigger] promoted_edges@[m]).0.0 == v;
                            assert(certain@[certain_list.len() + m].0.0 == v);
                        }
                    }
                }
                rounds = rounds + 1;
            }
            uncertain = remainder;
        }
    }
}

/// Refines what is known of the edges from every node.  On entry
/// `known_metric_edges` holds the edges that are minimal among the edges
/// from their source; on return it holds, for every node, the edges known
/// after the last round of promotion.
pub fn two_step_metric_edges<G: MultidistanceGraph + Sync>(
    graph: &G,
    known_metric_edges: &mut Vec<(NodeID, NodeID)>,
)
    requires
        graph.inv(),
        forall|e: (NodeID, NodeID)| #[trigger]
            old(known_metric_edges)@.contains(e) <==> seeded(graph.model(), e.0.0).contains(e.1.0),
    ensures
        forall|e: (NodeID, NodeID)| #[trigger]
            final(known_metric_edges)@.contains(e) <==> known_targets(graph.model(), e.0.0).contains(
                e.1.0,
            ),
{
    let ghost g = graph.model();
    let nodes = graph.nodes();
    let mut i: usize = 0;
    while i < nodes.len()
        invariant
            i <= nodes.len(),
            graph.inv(),
            g == graph.model(),
            is_node_list(g, nodes@),
            forall|e: (NodeID, NodeID)| #[trigger]
                known_metric_edges@.contains(e) <==> (if exists|k: int|
                    0 <= k < i && nodes@[k] == e.0 {
                    known_targets(g, e.0.0).contains(e.1.0)
                } else {
                    seeded(g, e.0.0).contains(e.1.0)
                }),
        decreases nodes.len() - i,
    {
        let source = nodes[i];
        let ghost before = known_metric_edges@;
        proof {
            assert forall|v: usize|
                before.contains((source, NodeID(v))) <==> seeded(g, source.0).contains(v) by {
                let e = (source, NodeID(v));
                if exists|k: int| 0 <= k < i && nodes@[k] == e.0 {
                    let k = choose|k: int| 0 <= k < i && nodes@[k] == e.0;
                    assert(nodes@[k] == nodes@[i as int]);
                }
            }
        }
        refine_source(graph, source, known_metric_edges);
        proof {
            assert forall|e: (NodeID, NodeID)| #[trigger]
                known_metric_edges@.contains(e) <==> (if exists|k: int|
                    0 <= k < i + 1 && nodes@[k] == e.0 {
                    known_targets(g, e.0.0).contains(e.1.0)
                } else {
                    seeded(g, e.0.0).contains(e.1.0)
                }) by {
                if e.0 == source {
                    assert(nodes@[i as int] == e.0);
                } else {
                    assert(known_metric_edges@.contains(e) == before.contains(e));
                    if exists|k: int| 0 <= k < i + 1 && nodes@[k] == e.0 {
                        let k = choose|k: int| 0 <= k < i + 1 && nodes@[k] == e.0;
                        assert(k < i);
                    }
                    if exists|k: int| 0 <= k < i && nodes@[k] == e.0 {
                        let k = choose|k: int| 0 <= k < i && nodes@[k] == e.0;
                        assert(0 <= k < i + 1 && nodes@[k] == e.0);
                    }
                }
            }
        }
        i += 1;
    }
    proof {
        graph.lemma_model_wf();
        assert forall|e: (NodeID, NodeID)| #[trigger]
            known_metric_edges@.contains(e) <==> known_targets(g, e.0.0).contains(e.1.0) by {
            if !(exists|k: int| 0 <= k < nodes@.len() && nodes@[k] == e.0) {
                // No edge leaves what is not a node.
                if known_targets(g, e.0.0).contains(e.1.0) {
                    let n = choose|n: nat| (#[trigger] known_after(g, e.0.0, n)).contains(e.1.0);
                    lemma_known_grows(g, e.0.0, n, n);
                }
                if seeded(g, e.0.0).contains(e.1.0) || known_targets(g, e.0.0).contains(e.1.0) {
                    assert(g.has_edge(e.0.0, e.1.0));
                    assert(g.edges.dom().contains((e.0.0, e.1.0)));
                    assert(g.nodes.contains(e.0.0));
                    assert(nodes@.contains(NodeID(e.0.0)));
                    let k = choose|k: int| 0 <= k < nodes@.len() && nodes@[k] == NodeID(e.0.0);
                    assert(nodes@[k] == e.0);
                }
            }
        }
    }
}

} // verus!
