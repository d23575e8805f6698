//! The state of the Pareto shortest-path search and what holds of it.
//!
//! The search keeps, for every node, the committed front `dist`, the front
//! `seen` of everything ever proposed for the node, and a queue of proposals.
//! This module states the invariant that ties the three to the walks of the
//! graph, and proves that each step of the search keeps it.
use crate::multigraph::GraphModel;
use crate::pareto::{
    dominated_by, extended, is_antichain, lemma_cover_concat, lemma_cover_upward, lemma_multimin_antichain,
    lemma_multimin_covered, lemma_multimin_minimal, lemma_multimin_nonempty,
    lemma_multimin_same_cover, lemma_not_above, multimin_spec, not_above, occurs,
};
use crate::potential::{covers_more, front_at};
use crate::walks::{attained, goes, hops, walk_weight, within};
use crate::weights::{canonical, weights_add, weights_le, weights_lt, weights_zero, Weights};
use vstd::prelude::*;

verus! {

/// What a search is asked: the graph, the source, the cap on the number of
/// hops if there is one, and the target with the weight to beat if there is
/// one.
pub struct SearchTask {
    pub g: GraphModel,
    pub s: usize,
    pub max_depth: Option<nat>,
    pub target: Option<(usize, Weights)>,
}

/// A proposal waiting in the queue: candidate weights for a node, and the
/// depth at which they were found.
pub struct FringeModel {
    pub node: usize,
    pub cands: Seq<Weights>,
    pub depth: nat,
}

/// The state of a search.
pub struct SearchState {
    pub dist: Map<usize, Seq<Weights>>,
    pub seen: Map<usize, Seq<Weights>>,
    pub fringe: Seq<FringeModel>,
    pub level: nat,
}

/// A weight matters to the search unless it is strictly above the weight to
/// beat, if there is one.
pub open spec fn relevant(t: SearchTask, y: Weights) -> bool {
    match t.target {
        Some((_, w)) => !weights_lt(w, y),
        None => true,
    }
}

/// Proposals found at `level` are still passed on.
pub open spec fn passes_on(t: SearchTask, level: nat) -> bool {
    match t.max_depth {
        Some(d) => level < d,
        None => true,
    }
}

/// The bound on the hops of what is known at depth `n`: `n` itself under a
/// cap, none without one.
pub open spec fn hop_bound(t: SearchTask, n: nat) -> Option<nat> {
    match t.max_depth {
        Some(_) => Some(n),
        None => None,
    }
}

/// The depth of a proposal made at `level`; depths are counted only under a
/// cap.
pub open spec fn child_depth(t: SearchTask, level: nat) -> nat {
    match t.max_depth {
        Some(_) => level + 1,
        None => 0,
    }
}

/// `depth` is a depth that the task allows.
pub open spec fn depth_allowed(t: SearchTask, depth: nat) -> bool {
    match t.max_depth {
        Some(d) => depth <= d,
        None => depth == 0,
    }
}

/// A non-empty antichain.
pub open spec fn front_ok(f: Seq<Weights>) -> bool {
    f.len() > 0 && is_antichain(f)
}

/// Every element of `f` is the weight of a walk to `v` within the bound.
pub open spec fn front_sound(t: SearchTask, v: usize, bound: Option<nat>, f: Seq<Weights>) -> bool {
    forall|a: int| 0 <= a < f.len() ==> attained(t.g, t.s, v, bound, #[trigger] f[a])
}

/// Some proposal for `v` in the queue has an element `<= y`.
pub open spec fn pending_covers(fringe: Seq<FringeModel>, v: usize, y: Weights) -> bool {
    exists|i: int|
        0 <= i < fringe.len() && (#[trigger] fringe[i]).node == v && dominated_by(
            fringe[i].cands,
            y,
        )
}

/// Some proposal for `v` of depth `level` in the queue has an element `<= y`.
pub open spec fn pending_covers_at(
    fringe: Seq<FringeModel>,
    v: usize,
    level: nat,
    y: Weights,
) -> bool {
    exists|i: int|
        0 <= i < fringe.len() && (#[trigger] fringe[i]).node == v && fringe[i].depth == level
            && dominated_by(fringe[i].cands, y)
}

/// The queue is ordered by depth, and holds the current level and the next.
pub open spec fn inv_queue(t: SearchTask, st: SearchState) -> bool {
    &&& depth_allowed(t, st.level)
    &&& forall|i: int|
        0 <= i < st.fringe.len() ==> st.level <= (#[trigger] st.fringe[i]).depth <= st.level + 1
            && depth_allowed(t, st.fringe[i].depth)
    &&& forall|i: int, j: int|
        #![trigger st.fringe[i], st.fringe[j]]
        0 <= i < j < st.fringe.len() ==> st.fringe[i].depth <= st.fringe[j].depth
}

/// Every front of the family is a non-empty antichain of weights of walks
/// within the bound.
pub open spec fn fronts_sound(
    t: SearchTask,
    fronts: Map<usize, Seq<Weights>>,
    bound: Option<nat>,
) -> bool {
    forall|v: usize| #[trigger]
        fronts.dom().contains(v) ==> front_ok(fronts[v]) && front_sound(t, v, bound, fronts[v])
}

/// Every front is a non-empty antichain of weights of walks, within the
/// hops that its place allows.
pub open spec fn inv_sound(t: SearchTask, st: SearchState) -> bool {
    &&& fronts_sound(t, st.dist, hop_bound(t, st.level))
    &&& fronts_sound(t, st.seen, hop_bound(t, st.level + 1))
    &&& forall|i: int|
        0 <= i < st.fringe.len() ==> front_ok((#[trigger] st.fringe[i]).cands) && front_sound(
            t,
            st.fringe[i].node,
            hop_bound(t, st.fringe[i].depth),
            st.fringe[i].cands,
        )
}

/// At the source nothing but the zero distance is ever held.
pub open spec fn inv_source(t: SearchTask, st: SearchState) -> bool {
    &&& front_at(st.seen, t.s) == seq![weights_zero()]
    &&& st.dist.dom().contains(t.s) ==> st.dist[t.s] == seq![weights_zero()]
    &&& forall|i: int|
        0 <= i < st.fringe.len() && (#[trigger] st.fringe[i]).node == t.s ==> st.fringe[i].cands
            == seq![weights_zero()]
}

/// While proposals are passed on, whatever `seen` covers and matters is
/// covered by `dist` or by a proposal in the queue.
pub open spec fn inv_backed(t: SearchTask, st: SearchState) -> bool {
    passes_on(t, st.level) ==> forall|v: usize, y: Weights|
        #![trigger dominated_by(front_at(st.seen, v), y)]
        relevant(t, y) && dominated_by(front_at(st.seen, v), y) ==> dominated_by(
            front_at(st.dist, v),
            y,
        ) || pending_covers(st.fringe, v, y)
}

/// While proposals are passed on, every committed weight has been carried
/// along every edge that leaves its node, but for the edges from `u` to the
/// nodes in `todo`.
pub open spec fn inv_relaxed(t: SearchTask, st: SearchState, u: usize, todo: Set<usize>) -> bool {
    passes_on(t, st.level) ==> forall|x: usize, a: int, v: usize|
        #![trigger st.dist[x][a], t.g.has_edge(x, v)]
        st.dist.dom().contains(x) && 0 <= a < st.dist[x].len() && t.g.has_edge(x, v) && !(x == u
            && todo.contains(v)) ==> dominated_by(
            front_at(st.seen, v),
            weights_add(st.dist[x][a], t.g.weight(x, v)),
        )
}

/// The weight of every walk of at most `level` hops that matters is covered
/// by `dist` or by a proposal of this level.
pub open spec fn inv_level(t: SearchTask, st: SearchState) -> bool {
    forall|p: Seq<usize>, v: usize|
        #![trigger goes(t.g, p, t.s, v)]
        goes(t.g, p, t.s, v) && hops(p) <= st.level && relevant(t, walk_weight(t.g, p))
            ==> dominated_by(front_at(st.dist, v), walk_weight(t.g, p)) || pending_covers_at(
            st.fringe,
            v,
            st.level,
            walk_weight(t.g, p),
        )
}

/// No element of a front of the family is strictly above the weight to
/// beat, if there is one.
pub open spec fn fronts_pruned(t: SearchTask, fronts: Map<usize, Seq<Weights>>) -> bool {
    forall|v: usize, a: int|
        #![trigger fronts[v][a]]
        fronts.dom().contains(v) && 0 <= a < fronts[v].len() ==> relevant(t, fronts[v][a])
}

/// What holds of the state whatever edges have been relaxed.
pub open spec fn core_inv(t: SearchTask, st: SearchState) -> bool {
    &&& t.g.wf()
    &&& inv_queue(t, st)
    &&& inv_sound(t, st)
    &&& fronts_pruned(t, st.dist)
    &&& inv_source(t, st)
    &&& inv_backed(t, st)
    &&& inv_level(t, st)
}

/// What holds of the state between two steps of the search.
pub open spec fn search_inv(t: SearchTask, st: SearchState) -> bool {
    core_inv(t, st) && inv_relaxed(t, st, t.s, Set::empty())
}

/// The state in which a search starts.
pub open spec fn initial_state(t: SearchTask) -> SearchState {
    SearchState {
        dist: Map::empty(),
        seen: Map::empty().insert(t.s, seq![weights_zero()]),
        fringe: seq![FringeModel { node: t.s, cands: seq![weights_zero()], depth: 0 }],
        level: 0,
    }
}

/// The start state satisfies the invariant.
pub proof fn lemma_initial(t: SearchTask)
    requires
        t.g.wf(),
    ensures
        search_inv(t, initial_state(t)),
{
    let st = initial_state(t);
    let zero = weights_zero();
    crate::walks::lemma_trivial_walk(t.g, t.s);
    assert(within(seq![t.s], hop_bound(t, 0)));
    assert(within(seq![t.s], hop_bound(t, 1)));
    assert(attained(t.g, t.s, t.s, hop_bound(t, 0), zero));
    assert(attained(t.g, t.s, t.s, hop_bound(t, 1), zero));
    assert(front_ok(seq![zero]));
    assert(dominated_by(seq![zero], zero)) by {
        assert(weights_le(seq![zero][0], zero));
    }
    assert forall|v: usize, y: Weights|
        #![trigger dominated_by(front_at(st.seen, v), y)]
        relevant(t, y) && dominated_by(front_at(st.seen, v), y) implies dominated_by(
        front_at(st.dist, v),
        y,
    ) || pending_covers(st.fringe, v, y) by {
        assert(st.seen.dom().contains(v));
        assert(st.fringe[0].node == v);
    }
    assert forall|p: Seq<usize>, v: usize|
        #![trigger goes(t.g, p, t.s, v)]
        goes(t.g, p, t.s, v) && hops(p) <= st.level && relevant(
            t,
            walk_weight(t.g, p),
        ) implies dominated_by(front_at(st.dist, v), walk_weight(t.g, p)) || pending_covers_at(
        st.fringe,
        v,
        st.level,
        walk_weight(t.g, p),
    ) by {
        assert(p.len() == 1);
        assert(walk_weight(t.g, p) == zero);
        assert(st.fringe[0].node == v);
    }
}

/// What is attained within a bound is attained within a wider one.
pub proof fn lemma_attained_wider(
    g: GraphModel,
    s: usize,
    v: usize,
    narrow: Option<nat>,
    wide: Option<nat>,
    x: Weights,
)
    requires
        attained(g, s, v, narrow, x),
        match wide {
            Some(n) => narrow is Some && narrow->0 <= n,
            None => true,
        },
    ensures
        attained(g, s, v, wide, x),
{
    let p = choose|p: Seq<usize>| #[trigger]
        goes(g, p, s, v) && within(p, narrow) && walk_weight(g, p) == x;
    assert(goes(g, p, s, v) && within(p, wide));
}

/// A sound family stays sound within a wider bound.
pub proof fn lemma_fronts_sound_wider(
    t: SearchTask,
    fronts: Map<usize, Seq<Weights>>,
    narrow: Option<nat>,
    wide: Option<nat>,
)
    requires
        fronts_sound(t, fronts, narrow),
        match wide {
            Some(n) => narrow is Some && narrow->0 <= n,
            None => true,
        },
    ensures
        fronts_sound(t, fronts, wide),
{
    assert forall|v: usize| #[trigger] fronts.dom().contains(v) implies front_sound(
        t,
        v,
        wide,
        fronts[v],
    ) by {
        assert forall|a: int| 0 <= a < fronts[v].len() implies attained(
            t.g,
            t.s,
            v,
            wide,
            #[trigger] fronts[v][a],
        ) by {
            lemma_attained_wider(t.g, t.s, v, narrow, wide, fronts[v][a]);
        }
    }
}

/// What is below a weight that matters, matters.
pub proof fn lemma_relevant_below(t: SearchTask, x: Weights, y: Weights)
    requires
        weights_le(x, y),
        relevant(t, y),
    ensures
        relevant(t, x),
{
    match t.target {
        Some((_, w)) => {
            if weights_lt(w, x) {
                crate::weights::lemma_le_transitive(w, x, y);
                crate::weights::lemma_le_transitive(x, y, w);
            }
        },
        None => {},
    }
}

/// What is `<=` the weight to beat matters.
pub proof fn lemma_relevant_le(t: SearchTask, y: Weights)
    requires
        t.target is Some,
        weights_le(y, t.target.unwrap().1),
    ensures
        relevant(t, y),
{
}

/// The state at another level.
pub open spec fn at_level(st: SearchState, level: nat) -> SearchState {
    SearchState { dist: st.dist, seen: st.seen, fringe: st.fringe, level }
}

/// Once the proposals of one level are used up, the invariant holds at the
/// next level.
pub proof fn lemma_advance_level(t: SearchTask, st: SearchState)
    requires
        search_inv(t, st),
        st.fringe.len() > 0,
        st.fringe[0].depth == st.level + 1,
    ensures
        search_inv(t, at_level(st, st.level + 1)),
{
    let nx = at_level(st, st.level + 1);
    assert forall|i: int| 0 <= i < st.fringe.len() implies (#[trigger] st.fringe[i]).depth
        == st.level + 1 by {
        if i > 0 {
            assert(st.fringe[0].depth <= st.fringe[i].depth);
        }
    }
    assert(passes_on(t, st.level));
    lemma_fronts_sound_wider(t, st.dist, hop_bound(t, st.level), hop_bound(t, nx.level));
    lemma_fronts_sound_wider(t, st.seen, hop_bound(t, st.level + 1), hop_bound(t, nx.level + 1));
    assert forall|p: Seq<usize>, v: usize|
        #![trigger goes(t.g, p, t.s, v)]
        goes(t.g, p, t.s, v) && hops(p) <= nx.level && relevant(
            t,
            walk_weight(t.g, p),
        ) implies dominated_by(front_at(nx.dist, v), walk_weight(t.g, p)) || pending_covers_at(
        nx.fringe,
        v,
        nx.level,
        walk_weight(t.g, p),
    ) by {
        let y = walk_weight(t.g, p);
        if hops(p) <= st.level {
            assert(!pending_covers_at(st.fringe, v, st.level, y));
        } else {
            crate::walks::lemma_walk_split(t.g, p, t.s, v);
            let q = p.drop_last();
            let x = p[p.len() - 2];
            let e = t.g.weight(x, v);
            lemma_relevant_below(t, walk_weight(t.g, q), y);
            assert(goes(t.g, q, t.s, x));
            assert(!pending_covers_at(st.fringe, x, st.level, walk_weight(t.g, q)));
            assert(dominated_by(front_at(st.dist, x), walk_weight(t.g, q)));
            let a = choose|a: int|
                0 <= a < front_at(st.dist, x).len() && 0 <= a && weights_le(
                    #[trigger] front_at(st.dist, x)[a],
                    walk_weight(t.g, q),
                );
            assert(st.dist.dom().contains(x));
            let d = st.dist[x][a];
            assert(t.g.has_edge(x, v));
            assert(dominated_by(front_at(st.seen, v), weights_add(d, e)));
            crate::weights::lemma_add_monotone(d, walk_weight(t.g, q), e);
            crate::pareto::lemma_cover_upward(front_at(st.seen, v), weights_add(d, e), y);
            assert(dominated_by(front_at(st.seen, v), y));
            if !dominated_by(front_at(st.dist, v), y) {
                assert(pending_covers(st.fringe, v, y));
                let i = choose|i: int|
                    0 <= i < st.fringe.len() && (#[trigger] st.fringe[i]).node == v
                        && dominated_by(st.fringe[i].cands, y);
                assert(nx.fringe[i].depth == nx.level);
            }
        }
    }
}

/// The front that results from merging the first proposal of the queue into
/// what is committed for its node.
pub open spec fn merged_front(st: SearchState) -> Seq<Weights> {
    multimin_spec(front_at(st.dist, st.fringe[0].node) + st.fringe[0].cands)
}

/// `f` without the elements strictly above the weight to beat, if there is
/// one.
pub open spec fn pruned(t: SearchTask, f: Seq<Weights>) -> Seq<Weights> {
    match t.target {
        Some((_, w)) => not_above(f, w),
        None => f,
    }
}

/// The state once the first proposal has been dropped.
pub open spec fn popped(st: SearchState) -> SearchState {
    SearchState { dist: st.dist, seen: st.seen, fringe: st.fringe.drop_first(), level: st.level }
}

/// The state once the first proposal has been taken and `kept` committed for
/// its node.
pub open spec fn committed(st: SearchState, kept: Seq<Weights>) -> SearchState {
    SearchState {
        dist: st.dist.insert(st.fringe[0].node, kept),
        seen: st.seen,
        fringe: st.fringe.drop_first(),
        level: st.level,
    }
}

/// The targets of the edges that leave `u`.
pub open spec fn out_targets(g: GraphModel, u: usize) -> Set<usize> {
    Set::new(|v: usize| g.has_edge(u, v))
}

/// What `f` covers and matters, the pruned Pareto minimum of `f` covers.
pub proof fn lemma_pruned_covers(t: SearchTask, f: Seq<Weights>, y: Weights)
    requires
        relevant(t, y),
        dominated_by(f, y),
    ensures
        dominated_by(pruned(t, multimin_spec(f)), y),
{
    let m = multimin_spec(f);
    lemma_multimin_same_cover(f, y);
    match t.target {
        Some((_, w)) => {
            let a = choose|a: int| 0 <= a < m.len() && 0 <= a && weights_le(#[trigger] m[a], y);
            lemma_relevant_below(t, m[a], y);
            lemma_not_above(m, w);
            let r = not_above(m, w);
            assert(occurs(r, m[a]));
            let b = choose|b: int| 0 <= b < r.len() && #[trigger] r[b] == m[a];
            assert(weights_le(r[b], y));
        },
        None => {},
    }
}

/// The pruned merged front is an antichain of weights of walks to the node
/// of the first proposal.
pub proof fn lemma_pruned_sound(t: SearchTask, st: SearchState)
    requires
        search_inv(t, st),
        st.fringe.len() > 0,
        st.fringe[0].depth == st.level,
    ensures
        is_antichain(pruned(t, merged_front(st))),
        front_sound(t, st.fringe[0].node, hop_bound(t, st.level), pruned(t, merged_front(st))),
        is_antichain(merged_front(st)),
        front_sound(t, st.fringe[0].node, hop_bound(t, st.level), merged_front(st)),
        merged_front(st).len() > 0,
        st.fringe[0].node == t.s ==> merged_front(st) == seq![weights_zero()] && pruned(
            t,
            merged_front(st),
        ) == seq![weights_zero()],
{
    let u = st.fringe[0].node;
    let old = front_at(st.dist, u);
    let cands = st.fringe[0].cands;
    let all = old + cands;
    let m = merged_front(st);
    let k = pruned(t, m);
    lemma_multimin_antichain(all);
    assert(front_ok(cands));
    assert(all[old.len() as int] == cands[0]);
    lemma_multimin_nonempty(all);
    assert forall|a: int| 0 <= a < m.len() implies attained(
        t.g,
        t.s,
        u,
        hop_bound(t, st.level),
        #[trigger] m[a],
    ) by {
        lemma_multimin_minimal(all, a);
        let i = choose|i: int| 0 <= i < all.len() && #[trigger] all[i] == m[a];
        if i < old.len() {
            assert(st.dist.dom().contains(u));
            assert(all[i] == st.dist[u][i]);
        } else {
            assert(all[i] == cands[i - old.len()]);
        }
    }
    match t.target {
        Some((_, w)) => {
            lemma_not_above(m, w);
            assert forall|a: int| 0 <= a < k.len() implies attained(
                t.g,
                t.s,
                u,
                hop_bound(t, st.level),
                #[trigger] k[a],
            ) by {
                assert(occurs(m, k[a]));
                let i = choose|i: int| 0 <= i < m.len() && #[trigger] m[i] == k[a];
            }
        },
        None => {},
    }
    if u == t.s {
        let zero = weights_zero();
        assert(cands == seq![zero]);
        assert(is_antichain(cands));
        assert forall|i: int| 0 <= i < old.len() implies dominated_by(cands, #[trigger] old[i]) by {
            assert(old == seq![zero]);
            assert(weights_le(cands[0], old[i]));
        }
        lemma_multimin_covered(old, cands);
        assert(m == seq![zero]);
        match t.target {
            Some((_, w)) => {
                assert(!weights_lt(w, zero));
                reveal_with_fuel(crate::pareto::not_above_prefix, 2);
                assert(not_above(m, w) =~= seq![zero]);
            },
            None => {},
        }
    }
}

/// Where pruning leaves nothing of the merged front, dropping the first
/// proposal keeps the invariant.
pub proof fn lemma_skip(t: SearchTask, st: SearchState)
    requires
        search_inv(t, st),
        st.fringe.len() > 0,
        st.fringe[0].depth == st.level,
        pruned(t, merged_front(st)).len() == 0,
    ensures
        search_inv(t, popped(st)),
{
    let nx = popped(st);
    let u = st.fringe[0].node;
    let all = front_at(st.dist, u) + st.fringe[0].cands;
    assert forall|i: int| 0 <= i < nx.fringe.len() implies #[trigger] nx.fringe[i] == st.fringe[i
        + 1] by {}
    assert forall|v: usize, y: Weights| relevant(t, y) && pending_covers(st.fringe, v, y)
        && !dominated_by(front_at(st.dist, v), y) implies pending_covers(nx.fringe, v, y) by {
        let i = choose|i: int|
            0 <= i < st.fringe.len() && (#[trigger] st.fringe[i]).node == v && dominated_by(
                st.fringe[i].cands,
                y,
            );
        if i == 0 {
            lemma_cover_concat(front_at(st.dist, u), st.fringe[0].cands, y);
            lemma_pruned_covers(t, all, y);
        } else {
            assert(nx.fringe[i - 1].node == v);
        }
    }
    assert forall|v: usize, y: Weights| relevant(t, y) && pending_covers_at(
        st.fringe,
        v,
        st.level,
        y,
    ) && !dominated_by(front_at(st.dist, v), y) implies pending_covers_at(
        nx.fringe,
        v,
        nx.level,
        y,
    ) by {
        let i = choose|i: int|
            0 <= i < st.fringe.len() && (#[trigger] st.fringe[i]).node == v && st.fringe[i].depth
                == st.level && dominated_by(st.fringe[i].cands, y);
        if i == 0 {
            lemma_cover_concat(front_at(st.dist, u), st.fringe[0].cands, y);
            lemma_pruned_covers(t, all, y);
        } else {
            assert(nx.fringe[i - 1].node == v);
        }
    }
    assert(inv_queue(t, nx)) by {
        assert forall|i: int, j: int|
            #![trigger nx.fringe[i], nx.fringe[j]]
            0 <= i < j < nx.fringe.len() implies nx.fringe[i].depth <= nx.fringe[j].depth by {
            assert(st.fringe[i + 1].depth <= st.fringe[j + 1].depth);
        }
    }
    assert(inv_level(t, nx)) by {
        assert forall|p: Seq<usize>, v: usize|
            #![trigger goes(t.g, p, t.s, v)]
            goes(t.g, p, t.s, v) && hops(p) <= nx.level && relevant(
                t,
                walk_weight(t.g, p),
            ) implies dominated_by(front_at(nx.dist, v), walk_weight(t.g, p))
            || pending_covers_at(nx.fringe, v, nx.level, walk_weight(t.g, p)) by {
            let y = walk_weight(t.g, p);
            if !dominated_by(front_at(st.dist, v), y) {
                assert(pending_covers_at(st.fringe, v, st.level, y));
            }
        }
    }
}

/// Committing the pruned merged front for the node of the first proposal
/// keeps everything but that the edges from that node are yet to be relaxed.
pub proof fn lemma_commit(t: SearchTask, st: SearchState)
    requires
        search_inv(t, st),
        st.fringe.len() > 0,
        st.fringe[0].depth == st.level,
        pruned(t, merged_front(st)).len() > 0,
    ensures
        core_inv(t, committed(st, pruned(t, merged_front(st)))),
        inv_relaxed(
            t,
            committed(st, pruned(t, merged_front(st))),
            st.fringe[0].node,
            out_targets(t.g, st.fringe[0].node),
        ),
{
    let kept = pruned(t, merged_front(st));
    let nx = committed(st, kept);
    let u = st.fringe[0].node;
    let all = front_at(st.dist, u) + st.fringe[0].cands;
    lemma_pruned_sound(t, st);
    assert forall|i: int| 0 <= i < nx.fringe.len() implies #[trigger] nx.fringe[i] == st.fringe[i
        + 1] by {}
    assert forall|v: usize, y: Weights|
        relevant(t, y) && (pending_covers(st.fringe, v, y) || dominated_by(
            front_at(st.dist, v),
            y,
        )) implies dominated_by(front_at(nx.dist, v), y) || pending_covers(nx.fringe, v, y) by {
        if dominated_by(front_at(st.dist, v), y) {
            if v == u {
                lemma_cover_concat(front_at(st.dist, u), st.fringe[0].cands, y);
                lemma_pruned_covers(t, all, y);
            }
        } else {
            let i = choose|i: int|
                0 <= i < st.fringe.len() && (#[trigger] st.fringe[i]).node == v && dominated_by(
                    st.fringe[i].cands,
                    y,
                );
            if i == 0 {
                lemma_cover_concat(front_at(st.dist, u), st.fringe[0].cands, y);
                lemma_pruned_covers(t, all, y);
            } else {
                assert(nx.fringe[i - 1].node == v);
            }
        }
    }
    assert forall|v: usize, y: Weights|
        relevant(t, y) && (pending_covers_at(st.fringe, v, st.level, y) || dominated_by(
            front_at(st.dist, v),
            y,
        )) implies dominated_by(front_at(nx.dist, v), y) || pending_covers_at(
        nx.fringe,
        v,
        nx.level,
        y,
    ) by {
        if dominated_by(front_at(st.dist, v), y) {
            if v == u {
                lemma_cover_concat(front_at(st.dist, u), st.fringe[0].cands, y);
                lemma_pruned_covers(t, all, y);
            }
        } else {
            let i = choose|i: int|
                0 <= i < st.fringe.len() && (#[trigger] st.fringe[i]).node == v
                    && st.fringe[i].depth == st.level && dominated_by(st.fringe[i].cands, y);
            if i == 0 {
                lemma_cover_concat(front_at(st.dist, u), st.fringe[0].cands, y);
                lemma_pruned_covers(t, all, y);
            } else {
                assert(nx.fringe[i - 1].node == v);
            }
        }
    }
    assert(inv_queue(t, nx)) by {
        assert forall|i: int, j: int|
            #![trigger nx.fringe[i], nx.fringe[j]]
            0 <= i < j < nx.fringe.len() implies nx.fringe[i].depth <= nx.fringe[j].depth by {
            assert(st.fringe[i + 1].depth <= st.fringe[j + 1].depth);
        }
    }
    assert(inv_sound(t, nx)) by {
        assert forall|v: usize| #[trigger] nx.dist.dom().contains(v) implies front_ok(nx.dist[v])
            && front_sound(t, v, hop_bound(t, nx.level), nx.dist[v]) by {
            if v != u {
                assert(st.dist.dom().contains(v));
            }
        }
    }
    assert(inv_source(t, nx));
    assert(fronts_pruned(t, nx.dist)) by {
        assert forall|v: usize, a: int|
            #![trigger nx.dist[v][a]]
            nx.dist.dom().contains(v) && 0 <= a < nx.dist[v].len() implies relevant(
            t,
            nx.dist[v][a],
        ) by {
            if v == u {
                match t.target {
                    Some((_, w)) => {
                        lemma_not_above(merged_front(st), w);
                    },
                    None => {},
                }
            } else {
                assert(nx.dist[v][a] == st.dist[v][a]);
            }
        }
    }
    assert(inv_backed(t, nx)) by {
        if passes_on(t, nx.level) {
            assert forall|v: usize, y: Weights|
                #![trigger dominated_by(front_at(nx.seen, v), y)]
                relevant(t, y) && dominated_by(front_at(nx.seen, v), y) implies dominated_by(
                front_at(nx.dist, v),
                y,
            ) || pending_covers(nx.fringe, v, y) by {
                assert(dominated_by(front_at(st.dist, v), y) || pending_covers(st.fringe, v, y));
            }
        }
    }
    assert(inv_level(t, nx)) by {
        assert forall|p: Seq<usize>, v: usize|
            #![trigger goes(t.g, p, t.s, v)]
            goes(t.g, p, t.s, v) && hops(p) <= nx.level && relevant(
                t,
                walk_weight(t.g, p),
            ) implies dominated_by(front_at(nx.dist, v), walk_weight(t.g, p))
            || pending_covers_at(nx.fringe, v, nx.level, walk_weight(t.g, p)) by {
            let y = walk_weight(t.g, p);
            assert(dominated_by(front_at(st.dist, v), y) || pending_covers_at(
                st.fringe,
                v,
                st.level,
                y,
            ));
        }
    }
    assert(inv_relaxed(t, nx, u, out_targets(t.g, u))) by {
        if passes_on(t, nx.level) {
            assert forall|x: usize, a: int, v: usize|
                #![trigger nx.dist[x][a], t.g.has_edge(x, v)]
                nx.dist.dom().contains(x) && 0 <= a < nx.dist[x].len() && t.g.has_edge(x, v) && !(x
                    == u && out_targets(t.g, u).contains(v)) implies dominated_by(
                front_at(nx.seen, v),
                weights_add(nx.dist[x][a], t.g.weight(x, v)),
            ) by {
                assert(x != u);
                assert(st.dist.dom().contains(x));
                assert(nx.dist[x][a] == st.dist[x][a]);
            }
        }
    }
}

/// What relaxing the edge from `u` to `v` proposes for `v`: the Pareto minimum
/// of the committed weights of `u` carried along the edge, and of what has
/// been seen at `v`.
pub open spec fn relax_candidate(t: SearchTask, st: SearchState, u: usize, v: usize) -> Seq<
    Weights,
> {
    multimin_spec(extended(st.dist[u], t.g.weight(u, v)) + front_at(st.seen, v))
}

/// Whether relaxing the edge from `u` to `v` puts a proposal into the queue:
/// it does where the candidate differs from what has been seen at `v` and
/// proposals are still passed on.
pub open spec fn relax_pushes(t: SearchTask, st: SearchState, u: usize, v: usize) -> bool {
    relax_candidate(t, st, u, v) != front_at(st.seen, v) && passes_on(t, st.level)
}

/// The state once the edge from `u` to `v` has been relaxed.
pub open spec fn relaxed(t: SearchTask, st: SearchState, u: usize, v: usize) -> SearchState {
    let cand = relax_candidate(t, st, u, v);
    SearchState {
        dist: st.dist,
        seen: st.seen.insert(v, cand),
        fringe: if relax_pushes(t, st, u, v) {
            st.fringe.push(FringeModel { node: v, cands: cand, depth: child_depth(t, st.level) })
        } else {
            st.fringe
        },
        level: st.level,
    }
}

/// Relaxing an edge keeps the invariant and takes the target of the edge off
/// the list of what is to be done.  What has been seen never covers less; and
/// where the candidate is new, the weight returned is covered now and was not
/// before.
pub proof fn lemma_relax(t: SearchTask, st: SearchState, u: usize, todo: Set<usize>, v: usize) -> (x:
    Weights)
    requires
        core_inv(t, st),
        inv_relaxed(t, st, u, todo),
        st.dist.dom().contains(u),
        t.g.has_edge(u, v),
    ensures
        core_inv(t, relaxed(t, st, u, v)),
        inv_relaxed(t, relaxed(t, st, u, v), u, todo.remove(v)),
        covers_more(st.seen, relaxed(t, st, u, v).seen),
        relax_candidate(t, st, u, v) != front_at(st.seen, v) ==> canonical(x) && x.dom().subset_of(
            t.g.layers(),
        ) && !dominated_by(front_at(st.seen, v), x) && dominated_by(
            front_at(relaxed(t, st, u, v).seen, v),
            x,
        ),
{
    let nx = relaxed(t, st, u, v);
    let e = t.g.weight(u, v);
    let ext = extended(st.dist[u], e);
    let old = front_at(st.seen, v);
    let all = ext + old;
    let cand = relax_candidate(t, st, u, v);
    let zero = weights_zero();
    assert(front_ok(st.dist[u]));
    assert(is_antichain(old));
    assert(all[0] == ext[0]);
    lemma_multimin_nonempty(all);
    lemma_multimin_antichain(all);
    // Every element of the candidate is the weight of a walk to `v`.
    assert forall|a: int| 0 <= a < cand.len() implies attained(
        t.g,
        t.s,
        v,
        hop_bound(t, st.level + 1),
        #[trigger] cand[a],
    ) by {
        lemma_multimin_minimal(all, a);
        let i = choose|i: int| 0 <= i < all.len() && #[trigger] all[i] == cand[a];
        if i < ext.len() {
            assert(all[i] == ext[i]);
            let d = st.dist[u][i];
            assert(attained(t.g, t.s, u, hop_bound(t, st.level), d));
            let p = choose|p: Seq<usize>| #[trigger]
                goes(t.g, p, t.s, u) && within(p, hop_bound(t, st.level)) && walk_weight(t.g, p)
                    == d;
            crate::walks::lemma_walk_extend(t.g, p, t.s, u, v);
            assert(goes(t.g, p.push(v), t.s, v) && within(p.push(v), hop_bound(t, st.level + 1)));
        } else {
            assert(all[i] == old[i - ext.len()]);
            assert(st.seen.dom().contains(v));
        }
    }
    // Covering only grows.
    assert forall|w: usize, y: Weights|
        #![trigger dominated_by(front_at(st.seen, w), y)]
        dominated_by(front_at(st.seen, w), y) implies dominated_by(front_at(nx.seen, w), y) by {
        if w == v {
            lemma_cover_concat(ext, old, y);
            lemma_multimin_same_cover(all, y);
        }
    }
    // At the source nothing changes.
    if v == t.s {
        assert(old == seq![zero]);
        assert forall|i: int| 0 <= i < ext.len() implies dominated_by(old, #[trigger] ext[i]) by {
            assert(weights_le(old[0], ext[i]));
        }
        lemma_multimin_covered(ext, old);
        assert(cand == old);
    }
    assert(inv_queue(t, nx)) by {
        assert forall|i: int, j: int|
            #![trigger nx.fringe[i], nx.fringe[j]]
            0 <= i < j < nx.fringe.len() implies nx.fringe[i].depth <= nx.fringe[j].depth by {
            if j < st.fringe.len() {
                assert(st.fringe[i].depth <= st.fringe[j].depth);
            } else {
                assert(st.fringe[i].depth <= st.level + 1);
            }
        }
    }
    assert(inv_sound(t, nx)) by {
        assert forall|w: usize| #[trigger] nx.seen.dom().contains(w) implies front_ok(nx.seen[w])
            && front_sound(t, w, hop_bound(t, nx.level + 1), nx.seen[w]) by {
            if w != v {
                assert(st.seen.dom().contains(w));
            }
        }
        assert forall|i: int| 0 <= i < nx.fringe.len() implies front_ok(
            (#[trigger] nx.fringe[i]).cands,
        ) && front_sound(
            t,
            nx.fringe[i].node,
            hop_bound(t, nx.fringe[i].depth),
            nx.fringe[i].cands,
        ) by {
            if i < st.fringe.len() {
                assert(nx.fringe[i] == st.fringe[i]);
            } else {
                assert(hop_bound(t, child_depth(t, st.level)) == hop_bound(t, st.level + 1));
            }
        }
    }
    assert(inv_source(t, nx)) by {
        assert forall|i: int|
            0 <= i < nx.fringe.len() && (#[trigger] nx.fringe[i]).node == t.s implies nx.fringe[i].cands
            == seq![zero] by {
            if i < st.fringe.len() {
                assert(nx.fringe[i] == st.fringe[i]);
            }
        }
    }
    assert(inv_backed(t, nx)) by {
        if passes_on(t, nx.level) {
            assert forall|w: usize, y: Weights|
                #![trigger dominated_by(front_at(nx.seen, w), y)]
                relevant(t, y) && dominated_by(front_at(nx.seen, w), y) implies dominated_by(
                front_at(nx.dist, w),
                y,
            ) || pending_covers(nx.fringe, w, y) by {
                if w == v && cand != old {
                    let last = nx.fringe.len() - 1;
                    assert(nx.fringe[last].node == v);
                    assert(dominated_by(nx.fringe[last].cands, y));
                } else {
                    assert(dominated_by(front_at(st.seen, w), y));
                    if !dominated_by(front_at(st.dist, w), y) {
                        let i = choose|i: int|
                            0 <= i < st.fringe.len() && (#[trigger] st.fringe[i]).node == w
                                && dominated_by(st.fringe[i].cands, y);
                        assert(nx.fringe[i] == st.fringe[i]);
                    }
                }
            }
        }
    }
    assert(inv_level(t, nx)) by {
        assert forall|p: Seq<usize>, w: usize|
            #![trigger goes(t.g, p, t.s, w)]
            goes(t.g, p, t.s, w) && hops(p) <= nx.level && relevant(
                t,
                walk_weight(t.g, p),
            ) implies dominated_by(front_at(nx.dist, w), walk_weight(t.g, p))
            || pending_covers_at(nx.fringe, w, nx.level, walk_weight(t.g, p)) by {
            let y = walk_weight(t.g, p);
            if !dominated_by(front_at(st.dist, w), y) {
                let i = choose|i: int|
                    0 <= i < st.fringe.len() && (#[trigger] st.fringe[i]).node == w
                        && st.fringe[i].depth == st.level && dominated_by(st.fringe[i].cands, y);
                assert(nx.fringe[i] == st.fringe[i]);
            }
        }
    }
    assert(inv_relaxed(t, nx, u, todo.remove(v))) by {
        if passes_on(t, nx.level) {
            assert forall|x: usize, a: int, w: usize|
                #![trigger nx.dist[x][a], t.g.has_edge(x, w)]
                nx.dist.dom().contains(x) && 0 <= a < nx.dist[x].len() && t.g.has_edge(x, w) && !(x
                    == u && todo.remove(v).contains(w)) implies dominated_by(
                front_at(nx.seen, w),
                weights_add(nx.dist[x][a], t.g.weight(x, w)),
            ) by {
                let y = weights_add(st.dist[x][a], t.g.weight(x, w));
                if x == u && w == v {
                    assert(all[a] == ext[a]);
                    assert(weights_le(all[a], y));
                    assert(dominated_by(all, y));
                    lemma_multimin_same_cover(all, y);
                } else {
                    assert(dominated_by(front_at(st.seen, w), y));
                }
            }
        }
    }
    if cand != old {
        let x = crate::pareto::lemma_multimin_progress(ext, old);
        let a = choose|a: int| 0 <= a < cand.len() && #[trigger] cand[a] == x;
        assert(attained(t.g, t.s, v, hop_bound(t, st.level + 1), cand[a]));
        let p = choose|p: Seq<usize>| #[trigger]
            goes(t.g, p, t.s, v) && within(p, hop_bound(t, st.level + 1)) && walk_weight(t.g, p)
                == x;
        crate::walks::lemma_walk_weight_canonical(t.g, p);
        assert(weights_le(cand[a], x));
        x
    } else {
        zero
    }
}

/// With more edges left to be relaxed, less is claimed.
pub proof fn lemma_relaxed_weaken(
    t: SearchTask,
    st: SearchState,
    u: usize,
    fewer: Set<usize>,
    more: Set<usize>,
)
    requires
        inv_relaxed(t, st, u, fewer),
        fewer.subset_of(more),
    ensures
        inv_relaxed(t, st, u, more),
{
}

/// Once no edge from `u` is left to be relaxed, the full invariant holds.
pub proof fn lemma_relaxing_done(t: SearchTask, st: SearchState, u: usize, todo: Set<usize>)
    requires
        core_inv(t, st),
        inv_relaxed(t, st, u, todo),
        forall|v: usize| todo.contains(v) ==> !t.g.has_edge(u, v),
    ensures
        search_inv(t, st),
{
}

/// The search has covered the weight of every walk within the cap that
/// matters, at every node but the source.
pub open spec fn search_complete(t: SearchTask, r: Map<usize, Seq<Weights>>) -> bool {
    forall|p: Seq<usize>, v: usize|
        #![trigger goes(t.g, p, t.s, v)]
        goes(t.g, p, t.s, v) && v != t.s && within(p, t.max_depth) && relevant(
            t,
            walk_weight(t.g, p),
        ) ==> r.dom().contains(v) && dominated_by(r[v], walk_weight(t.g, p))
}

/// The search has found a walk to the target that is strictly below the
/// weight to beat.
pub open spec fn search_beaten(t: SearchTask, r: Map<usize, Seq<Weights>>) -> bool {
    match t.target {
        Some((tv, w)) => if tv == t.s {
            w != weights_zero()
        } else {
            r.dom().contains(tv) && exists|a: int|
                0 <= a < r[tv].len() && weights_lt(#[trigger] r[tv][a], w)
        },
        None => false,
    }
}

/// What a search returns.  The source is not a key.  Every front is a
/// non-empty antichain of weights of walks from the source within the cap.
/// And either the weight to beat has been beaten at the target, or the fronts
/// hold nothing strictly above the weight to beat and cover every walk within
/// the cap that is not strictly above it: they are then the Pareto fronts of
/// those walks.
pub open spec fn is_search_result(t: SearchTask, r: Map<usize, Seq<Weights>>) -> bool {
    &&& !r.dom().contains(t.s)
    &&& fronts_sound(t, r, t.max_depth)
    &&& (search_complete(t, r) && fronts_pruned(t, r) || search_beaten(t, r))
}

/// With an empty queue, `dist` covers every walk that matters: every walk
/// while proposals were passed on to the end, and else every walk of at most
/// `level` hops.
pub proof fn lemma_covered_walk(t: SearchTask, st: SearchState, p: Seq<usize>, v: usize)
    requires
        search_inv(t, st),
        st.fringe.len() == 0,
        goes(t.g, p, t.s, v),
        relevant(t, walk_weight(t.g, p)),
        passes_on(t, st.level) || hops(p) <= st.level,
    ensures
        dominated_by(front_at(st.dist, v), walk_weight(t.g, p)),
    decreases p.len(),
{
    let y = walk_weight(t.g, p);
    if hops(p) <= st.level {
        assert(!pending_covers_at(st.fringe, v, st.level, y));
    } else {
        crate::walks::lemma_walk_split(t.g, p, t.s, v);
        let q = p.drop_last();
        let x = p[p.len() - 2];
        let e = t.g.weight(x, v);
        lemma_relevant_below(t, walk_weight(t.g, q), y);
        lemma_covered_walk(t, st, q, x);
        let a = choose|a: int|
            0 <= a < front_at(st.dist, x).len() && 0 <= a && weights_le(
                #[trigger] front_at(st.dist, x)[a],
                walk_weight(t.g, q),
            );
        assert(st.dist.dom().contains(x));
        let d = st.dist[x][a];
        assert(t.g.has_edge(x, v));
        assert(dominated_by(front_at(st.seen, v), weights_add(d, e)));
        crate::weights::lemma_add_monotone(d, walk_weight(t.g, q), e);
        lemma_cover_upward(front_at(st.seen, v), weights_add(d, e), y);
        assert(dominated_by(front_at(st.seen, v), y));
        assert(!pending_covers(st.fringe, v, y));
    }
}

/// When the queue is empty, what is committed, without the source, is the
/// result of the search.
pub proof fn lemma_result_complete(t: SearchTask, st: SearchState)
    requires
        search_inv(t, st),
        st.fringe.len() == 0,
    ensures
        is_search_result(t, st.dist.remove(t.s)),
        search_complete(t, st.dist.remove(t.s)),
{
    let r = st.dist.remove(t.s);
    lemma_fronts_sound_wider(t, st.dist, hop_bound(t, st.level), t.max_depth);
    assert forall|v: usize| #[trigger] r.dom().contains(v) implies front_ok(r[v]) && front_sound(
        t,
        v,
        t.max_depth,
        r[v],
    ) by {
        assert(st.dist.dom().contains(v));
    }
    assert forall|p: Seq<usize>, v: usize|
        #![trigger goes(t.g, p, t.s, v)]
        goes(t.g, p, t.s, v) && v != t.s && within(p, t.max_depth) && relevant(
            t,
            walk_weight(t.g, p),
        ) implies r.dom().contains(v) && dominated_by(r[v], walk_weight(t.g, p)) by {
        lemma_covered_walk(t, st, p, v);
    }
}

/// When the merged front at the target holds a weight strictly below the
/// weight to beat, what is committed with that front, without the source, is
/// the result of the search.
pub proof fn lemma_result_beaten(t: SearchTask, st: SearchState)
    requires
        search_inv(t, st),
        st.fringe.len() > 0,
        st.fringe[0].depth == st.level,
        t.target is Some,
        t.target.unwrap().0 == st.fringe[0].node,
        exists|a: int|
            0 <= a < merged_front(st).len() && weights_lt(
                #[trigger] merged_front(st)[a],
                t.target.unwrap().1,
            ),
    ensures
        is_search_result(t, st.dist.insert(st.fringe[0].node, merged_front(st)).remove(t.s)),
        search_beaten(t, st.dist.insert(st.fringe[0].node, merged_front(st)).remove(t.s)),
        st.dist.insert(st.fringe[0].node, merged_front(st)).dom().contains(t.s) ==> st.dist.insert(
            st.fringe[0].node,
            merged_front(st),
        )[t.s] == seq![weights_zero()],
{
    let u = st.fringe[0].node;
    let m = merged_front(st);
    let r = st.dist.insert(u, m).remove(t.s);
    lemma_pruned_sound(t, st);
    lemma_fronts_sound_wider(t, st.dist, hop_bound(t, st.level), t.max_depth);
    assert forall|v: usize| #[trigger] r.dom().contains(v) implies front_ok(r[v]) && front_sound(
        t,
        v,
        t.max_depth,
        r[v],
    ) by {
        if v == u {
            assert forall|a: int| 0 <= a < m.len() implies attained(
                t.g,
                t.s,
                v,
                t.max_depth,
                #[trigger] m[a],
            ) by {
                lemma_attained_wider(t.g, t.s, v, hop_bound(t, st.level), t.max_depth, m[a]);
            }
        } else {
            assert(st.dist.dom().contains(v));
        }
    }
    let a = choose|a: int| 0 <= a < m.len() && weights_lt(#[trigger] m[a], t.target.unwrap().1);
    if u == t.s {
        assert(m[a] == weights_zero());
    } else {
        assert(r[u][a] == m[a]);
    }
}

/// A search without a weight to beat returns the Pareto fronts: its keys are
/// the nodes other than the source that a walk within the cap reaches, and
/// what it holds for a node is the Pareto front of the walks to that node.
pub proof fn lemma_result_fronts(t: SearchTask, r: Map<usize, Seq<Weights>>, v: usize)
    requires
        t.g.wf(),
        t.target is None,
        is_search_result(t, r),
    ensures
        r.dom().contains(v) == (v != t.s && crate::walks::reachable(t.g, t.s, v, t.max_depth)),
        r.dom().contains(v) ==> crate::walks::is_pareto_front(t.g, t.s, v, t.max_depth, r[v]),
{
    if r.dom().contains(v) {
        assert(front_ok(r[v]));
        assert(attained(t.g, t.s, v, t.max_depth, r[v][0]));
        let p = choose|p: Seq<usize>| #[trigger]
            goes(t.g, p, t.s, v) && within(p, t.max_depth) && walk_weight(t.g, p) == r[v][0];
        assert(goes(t.g, p, t.s, v) && within(p, t.max_depth));
    }
    if v != t.s && crate::walks::reachable(t.g, t.s, v, t.max_depth) {
        let p = choose|p: Seq<usize>| #[trigger] goes(t.g, p, t.s, v) && within(p, t.max_depth);
        assert(r.dom().contains(v));
    }
}

/// The front that a search without a weight to beat returns for the end of an
/// edge from the source holds a weight strictly below the weight of the edge
/// exactly when some walk within the cap is strictly below it.
pub proof fn lemma_result_beats(t: SearchTask, r: Map<usize, Seq<Weights>>, v: usize)
    requires
        t.g.wf(),
        t.target is None,
        t.g.has_edge(t.s, v),
        is_search_result(t, r),
    ensures
        v != t.s ==> (r.dom().contains(v) && exists|a: int|
            0 <= a < r[v].len() && weights_lt(#[trigger] r[v][a], t.g.weight(t.s, v)))
            == crate::walks::strictly_beaten(t.g, t.s, v, t.max_depth),
{
    let g = t.g;
    let s = t.s;
    let w = g.weight(s, v);
    let bound = t.max_depth;
    if v != s {
        if r.dom().contains(v) && exists|a: int|
            0 <= a < r[v].len() && weights_lt(#[trigger] r[v][a], w) {
            let a = choose|a: int| 0 <= a < r[v].len() && weights_lt(#[trigger] r[v][a], w);
            assert(front_ok(r[v]));
            assert(attained(g, s, v, bound, r[v][a]));
            let q = choose|q: Seq<usize>| #[trigger]
                goes(g, q, s, v) && within(q, bound) && walk_weight(g, q) == r[v][a];
            assert(goes(g, q, s, v) && within(q, bound) && weights_lt(walk_weight(g, q), w));
        }
        if crate::walks::strictly_beaten(g, s, v, bound) {
            let p = choose|p: Seq<usize>| #[trigger]
                goes(g, p, s, v) && within(p, bound) && weights_lt(walk_weight(g, p), w);
            assert(dominated_by(r[v], walk_weight(g, p)));
            let b = choose|b: int|
                0 <= b < r[v].len() && 0 <= b && weights_le(#[trigger] r[v][b], walk_weight(g, p));
            crate::weights::lemma_le_transitive(r[v][b], walk_weight(g, p), w);
            if weights_le(w, r[v][b]) {
                crate::weights::lemma_le_transitive(w, r[v][b], walk_weight(g, p));
            }
            assert(weights_lt(r[v][b], w));
        }
    }
}

/// With a weight to beat at a target other than the source, the result shows
/// the weight beaten exactly when some walk to the target within the cap is
/// strictly below it.
pub proof fn lemma_beaten_iff(t: SearchTask, r: Map<usize, Seq<Weights>>)
    requires
        t.target is Some,
        t.target.unwrap().0 != t.s,
        is_search_result(t, r),
    ensures
        search_beaten(t, r) == exists|p: Seq<usize>| #[trigger]
            goes(t.g, p, t.s, t.target.unwrap().0) && within(p, t.max_depth) && weights_lt(
                walk_weight(t.g, p),
                t.target.unwrap().1,
            ),
{
    let v = t.target.unwrap().0;
    let w = t.target.unwrap().1;
    if search_beaten(t, r) {
        let a = choose|a: int| 0 <= a < r[v].len() && weights_lt(#[trigger] r[v][a], w);
        assert(front_ok(r[v]));
        assert(attained(t.g, t.s, v, t.max_depth, r[v][a]));
        let q = choose|q: Seq<usize>| #[trigger]
            goes(t.g, q, t.s, v) && within(q, t.max_depth) && walk_weight(t.g, q) == r[v][a];
        assert(goes(t.g, q, t.s, v) && within(q, t.max_depth) && weights_lt(
            walk_weight(t.g, q),
            w,
        ));
    } else if exists|p: Seq<usize>| #[trigger]
        goes(t.g, p, t.s, v) && within(p, t.max_depth) && weights_lt(walk_weight(t.g, p), w) {
        let p = choose|p: Seq<usize>| #[trigger]
            goes(t.g, p, t.s, v) && within(p, t.max_depth) && weights_lt(walk_weight(t.g, p), w);
        let y = walk_weight(t.g, p);
        lemma_relevant_le(t, y);
        assert(dominated_by(r[v], y));
        let b = choose|b: int| 0 <= b < r[v].len() && 0 <= b && weights_le(#[trigger] r[v][b], y);
        crate::weights::lemma_le_transitive(r[v][b], y, w);
        if weights_le(w, r[v][b]) {
            crate::weights::lemma_le_transitive(w, r[v][b], y);
        }
        assert(weights_lt(r[v][b], w));
    }
}

/// What a search for a walk that beats the edge from the source to `v` tells
/// about that edge: the front that it returns for `v` holds the weight of the
/// edge exactly when the edge is metric within the cap.
pub proof fn lemma_result_metric(t: SearchTask, r: Map<usize, Seq<Weights>>, v: usize)
    requires
        t.g.wf(),
        t.g.has_edge(t.s, v),
        v != t.s,
        t.target == Some((v, t.g.weight(t.s, v))),
        is_search_result(t, r),
    ensures
        (r.dom().contains(v) && occurs(r[v], t.g.weight(t.s, v))) == crate::walks::is_metric_edge(
            t.g,
            t.s,
            v,
            t.max_depth,
        ),
{
    let g = t.g;
    let s = t.s;
    let w = g.weight(s, v);
    let bound = t.max_depth;
    assert(g.edges.dom().contains((s, v)));
    lemma_beaten_iff(t, r);
    assert(search_beaten(t, r) == crate::walks::strictly_beaten(g, s, v, bound));
    if r.dom().contains(v) && occurs(r[v], w) {
        let a = choose|a: int| 0 <= a < r[v].len() && #[trigger] r[v][a] == w;
        assert(front_ok(r[v]));
        assert(attained(g, s, v, bound, r[v][a]));
        if search_beaten(t, r) {
            let b = choose|b: int| 0 <= b < r[v].len() && weights_lt(#[trigger] r[v][b], w);
            if b != a {
                assert(!weights_le(r[v][b], r[v][a]));
            }
        }
    }
    if crate::walks::is_metric_edge(g, s, v, bound) {
        let p = choose|p: Seq<usize>| #[trigger]
            goes(g, p, s, v) && within(p, bound) && walk_weight(g, p) == w;
        crate::weights::lemma_le_reflexive(w);
        lemma_relevant_le(t, w);
        assert(dominated_by(r[v], walk_weight(g, p)));
        let b = choose|b: int| 0 <= b < r[v].len() && 0 <= b && weights_le(#[trigger] r[v][b], w);
        assert(front_ok(r[v]));
        assert(attained(g, s, v, bound, r[v][b]));
        let q = choose|q: Seq<usize>| #[trigger]
            goes(g, q, s, v) && within(q, bound) && walk_weight(g, q) == r[v][b];
        assert(!weights_lt(walk_weight(g, q), w));
        crate::walks::lemma_walk_weight_canonical(g, q);
        crate::weights::lemma_le_antisymmetric(r[v][b], w);
    }
}

} // verus!
