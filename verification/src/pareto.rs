//! Pareto-minimal subsets of lists of multi-distances.
use crate::multidistance::MultiDistance;
use crate::weights::{
    lemma_le_transitive, weights_add, weights_le, weights_lt, weights_zero, Weights,
};
use vstd::prelude::*;

verus! {

/// The models of a list of multi-distances, in order.
pub open spec fn models(s: Seq<MultiDistance>) -> Seq<Weights> {
    s.map_values(|m: MultiDistance| m@)
}

/// Some element of `s` at position `from` or later is `<= t`.
pub open spec fn dominated_from(s: Seq<Weights>, from: int, t: Weights) -> bool {
    exists|j: int| from <= j < s.len() && 0 <= j && weights_le(#[trigger] s[j], t)
}

/// Some element of `s` is `<= t`.
pub open spec fn dominated_by(s: Seq<Weights>, t: Weights) -> bool {
    dominated_from(s, 0, t)
}

/// What has been kept once the first `n` elements of `s` have been
/// considered: an element is kept unless a later element of `s`, or an
/// element kept before it, is `<=` it.
pub open spec fn pareto_prefix(s: Seq<Weights>, n: nat) -> Seq<Weights>
    decreases n,
{
    if n == 0 {
        Seq::empty()
    } else {
        let kept = pareto_prefix(s, (n - 1) as nat);
        let t = s[n - 1];
        if dominated_from(s, n as int, t) || dominated_by(kept, t) {
            kept
        } else {
            kept.push(t)
        }
    }
}

/// The Pareto-minimal elements of `s`, in the order of `s`; of several equal
/// minimal elements the last one stays.
pub open spec fn multimin_spec(s: Seq<Weights>) -> Seq<Weights> {
    pareto_prefix(s, s.len())
}

/// No element of `s` is `<=` an element at another position.
pub open spec fn is_antichain(s: Seq<Weights>) -> bool {
    forall|a: int, b: int|
        #![trigger s[a], s[b]]
        0 <= a < s.len() && 0 <= b < s.len() && a != b ==> !weights_le(s[a], s[b])
}

/// `x` occurs in `s`.
pub open spec fn occurs(s: Seq<Weights>, x: Weights) -> bool {
    exists|i: int| 0 <= i < s.len() && #[trigger] s[i] == x
}

/// What holds of the elements kept among the first `n`.
pub proof fn lemma_pareto_prefix(s: Seq<Weights>, n: nat)
    requires
        n <= s.len(),
    ensures
        pareto_prefix(s, n).len() <= n,
        is_antichain(pareto_prefix(s, n)),
        forall|a: int|
            #![trigger pareto_prefix(s, n)[a]]
            0 <= a < pareto_prefix(s, n).len() ==> exists|i: int|
                0 <= i < n && #[trigger] s[i] == pareto_prefix(s, n)[a] && !dominated_from(
                    s,
                    i + 1,
                    s[i],
                ),
        forall|j: int|
            0 <= j < n ==> dominated_by(pareto_prefix(s, n), #[trigger] s[j]) || dominated_from(
                s,
                n as int,
                s[j],
            ),
    decreases n,
{
    if n > 0 {
        let m = (n - 1) as nat;
        lemma_pareto_prefix(s, m);
        let kept = pareto_prefix(s, m);
        let p = pareto_prefix(s, n);
        let t = s[n - 1];
        assert forall|a: int| #![trigger p[a]] 0 <= a < p.len() implies exists|i: int|
            0 <= i < n && #[trigger] s[i] == p[a] && !dominated_from(s, i + 1, s[i]) by {
            if a < kept.len() {
                assert(p[a] == kept[a]);
                let i = choose|i: int|
                    0 <= i < m && #[trigger] s[i] == kept[a] && !dominated_from(s, i + 1, s[i]);
                assert(s[i] == p[a]);
            } else {
                assert(s[n - 1] == p[a]);
            }
        }
        assert forall|a: int, b: int|
            #![trigger p[a], p[b]]
            0 <= a < p.len() && 0 <= b < p.len() && a != b implies !weights_le(p[a], p[b]) by {
            if a < kept.len() && b < kept.len() {
                assert(!weights_le(kept[a], kept[b]));
            } else if a < kept.len() {
                // `p[b]` is `t`, which no kept element is below.
                assert(p[b] == t);
                if weights_le(p[a], p[b]) {
                    assert(weights_le(kept[a], t));
                    assert(dominated_by(kept, t));
                }
            } else {
                // `p[a]` is `t`, a later element than the source of `p[b]`.
                assert(p[a] == t);
                let i = choose|i: int|
                    0 <= i < m && #[trigger] s[i] == kept[b] && !dominated_from(s, i + 1, s[i]);
                if weights_le(t, p[b]) {
                    assert(weights_le(s[n - 1], s[i]));
                    assert(dominated_from(s, i + 1, s[i]));
                }
            }
        }
        assert forall|j: int| 0 <= j < n implies dominated_by(p, #[trigger] s[j])
            || dominated_from(s, n as int, s[j]) by {
            lemma_covered_step(s, n, j);
        }
    }
}

proof fn lemma_covered_step(s: Seq<Weights>, n: nat, j: int)
    requires
        0 < n <= s.len(),
        0 <= j < n,
        j < n - 1 ==> dominated_by(pareto_prefix(s, (n - 1) as nat), s[j]) || dominated_from(
            s,
            n - 1,
            s[j],
        ),
    ensures
        dominated_by(pareto_prefix(s, n), s[j]) || dominated_from(s, n as int, s[j]),
{
    let kept = pareto_prefix(s, (n - 1) as nat);
    let p = pareto_prefix(s, n);
    let t = s[n - 1];
    // First: `t` itself is covered.
    let t_covered = dominated_by(p, t) || dominated_from(s, n as int, t);
    assert(t_covered) by {
        if dominated_from(s, n as int, t) {
        } else if dominated_by(kept, t) {
            assert(p == kept);
        } else {
            assert(p == kept.push(t));
            assert(p[p.len() - 1] == t);
            assert(weights_le(p[p.len() - 1], t));
        }
    }
    if j == n - 1 {
    } else if dominated_by(kept, s[j]) {
        let a = choose|a: int| 0 <= a < kept.len() && weights_le(#[trigger] kept[a], s[j]);
        assert(p[a] == kept[a]);
        assert(weights_le(p[a], s[j]));
    } else {
        let k = choose|k: int| n - 1 <= k < s.len() && 0 <= k && weights_le(#[trigger] s[k], s[j]);
        if k == n - 1 {
            // covered through `t`
            if dominated_by(p, t) {
                let a = choose|a: int| 0 <= a < p.len() && weights_le(#[trigger] p[a], t);
                lemma_le_transitive(p[a], t, s[j]);
                assert(weights_le(p[a], s[j]));
            } else {
                let k2 = choose|k2: int|
                    n <= k2 < s.len() && 0 <= k2 && weights_le(#[trigger] s[k2], t);
                lemma_le_transitive(s[k2], t, s[j]);
                assert(weights_le(s[k2], s[j]));
            }
        } else {
            assert(weights_le(s[k], s[j]));
        }
    }
}

/// The result of `multimin_spec` is an antichain: no two of its elements, at
/// different positions, are comparable.
pub proof fn lemma_multimin_antichain(s: Seq<Weights>)
    ensures
        is_antichain(multimin_spec(s)),
{
    lemma_pareto_prefix(s, s.len());
}

/// Any two elements of an antichain, at different positions, are
/// incomparable.
pub proof fn lemma_antichain_incomparable(s: Seq<Weights>, a: int, b: int)
    requires
        is_antichain(s),
        0 <= a < s.len(),
        0 <= b < s.len(),
        a != b,
    ensures
        crate::weights::weights_incomparable(s[a], s[b]),
{
    assert(!weights_le(s[a], s[b]));
    assert(!weights_le(s[b], s[a]));
}

/// Every element of the result occurs in the input, and no element of the
/// input is strictly below it.
pub proof fn lemma_multimin_minimal(s: Seq<Weights>, a: int)
    requires
        0 <= a < multimin_spec(s).len(),
    ensures
        occurs(s, multimin_spec(s)[a]),
        forall|j: int| 0 <= j < s.len() ==> !weights_lt(#[trigger] s[j], multimin_spec(s)[a]),
{
    lemma_pareto_prefix(s, s.len());
    let p = multimin_spec(s);
    let i = choose|i: int|
        0 <= i < s.len() && #[trigger] s[i] == p[a] && !dominated_from(s, i + 1, s[i]);
    assert(s[i] == p[a]);
    assert forall|j: int| 0 <= j < s.len() implies !weights_lt(#[trigger] s[j], p[a]) by {
        if weights_lt(s[j], p[a]) {
            lemma_multimin_covers(s, j);
            let b = choose|b: int| 0 <= b < p.len() && weights_le(#[trigger] p[b], s[j]);
            lemma_le_transitive(p[b], s[j], p[a]);
            if b != a {
                assert(!weights_le(p[b], p[a]));
            }
        }
    }
}

/// Every element of the input has an element of the result `<=` it.
pub proof fn lemma_multimin_covers(s: Seq<Weights>, j: int)
    requires
        0 <= j < s.len(),
    ensures
        dominated_by(multimin_spec(s), s[j]),
{
    lemma_pareto_prefix(s, s.len());
}

/// `multimin_spec` leaves an antichain as it is.
pub proof fn lemma_multimin_of_antichain(s: Seq<Weights>)
    requires
        is_antichain(s),
    ensures
        multimin_spec(s) == s,
{
    lemma_antichain_prefix(s, s.len());
    assert(s.take(s.len() as int) == s);
}

proof fn lemma_antichain_prefix(s: Seq<Weights>, n: nat)
    requires
        is_antichain(s),
        n <= s.len(),
    ensures
        pareto_prefix(s, n) == s.take(n as int),
    decreases n,
{
    if n > 0 {
        lemma_antichain_prefix(s, (n - 1) as nat);
        let kept = pareto_prefix(s, (n - 1) as nat);
        let t = s[n - 1];
        if dominated_from(s, n as int, t) {
            let j = choose|j: int| n <= j < s.len() && 0 <= j && weights_le(#[trigger] s[j], t);
            assert(!weights_le(s[j], s[n - 1]));
        }
        if dominated_by(kept, t) {
            let a = choose|a: int| 0 <= a < kept.len() && weights_le(#[trigger] kept[a], t);
            assert(kept[a] == s[a]);
            assert(!weights_le(s[a], s[n - 1]));
        }
        assert(s.take(n as int) == s.take(n - 1).push(t));
    } else {
        assert(s.take(0) == Seq::<Weights>::empty());
    }
}

/// `multimin_spec` is idempotent.
pub proof fn lemma_multimin_idempotent(s: Seq<Weights>)
    ensures
        multimin_spec(multimin_spec(s)) == multimin_spec(s),
{
    lemma_multimin_antichain(s);
    lemma_multimin_of_antichain(multimin_spec(s));
}

/// A canonical weight is an element of the Pareto minimum of a list of
/// canonical weights exactly when it occurs in the list and no element of the
/// list is strictly below it.
pub proof fn lemma_multimin_holds(s: Seq<Weights>, x: Weights)
    requires
        crate::weights::canonical(x),
        forall|i: int| 0 <= i < s.len() ==> crate::weights::canonical(#[trigger] s[i]),
    ensures
        occurs(multimin_spec(s), x) == (occurs(s, x) && forall|j: int|
            0 <= j < s.len() ==> !weights_lt(#[trigger] s[j], x)),
{
    let m = multimin_spec(s);
    if occurs(m, x) {
        let a = choose|a: int| 0 <= a < m.len() && #[trigger] m[a] == x;
        lemma_multimin_minimal(s, a);
    }
    if occurs(s, x) && forall|j: int| 0 <= j < s.len() ==> !weights_lt(#[trigger] s[j], x) {
        let i = choose|i: int| 0 <= i < s.len() && #[trigger] s[i] == x;
        lemma_multimin_covers(s, i);
        let a = choose|a: int| 0 <= a < m.len() && 0 <= a && weights_le(#[trigger] m[a], x);
        lemma_multimin_minimal(s, a);
        let j = choose|j: int| 0 <= j < s.len() && #[trigger] s[j] == m[a];
        assert(!weights_lt(s[j], x));
        crate::weights::lemma_le_antisymmetric(m[a], x);
    }
}

/// The Pareto-minimal elements of a non-empty list are not empty.
pub proof fn lemma_multimin_nonempty(s: Seq<Weights>)
    requires
        s.len() > 0,
    ensures
        multimin_spec(s).len() > 0,
{
    lemma_multimin_covers(s, 0);
}

/// What the input covers, the result covers, and the other way round.
pub proof fn lemma_multimin_same_cover(s: Seq<Weights>, y: Weights)
    ensures
        dominated_by(multimin_spec(s), y) == dominated_by(s, y),
{
    let m = multimin_spec(s);
    if dominated_by(s, y) {
        let j = choose|j: int| 0 <= j < s.len() && 0 <= j && weights_le(#[trigger] s[j], y);
        lemma_multimin_covers(s, j);
        let a = choose|a: int| 0 <= a < m.len() && 0 <= a && weights_le(#[trigger] m[a], s[j]);
        lemma_le_transitive(m[a], s[j], y);
        assert(weights_le(m[a], y));
    }
    if dominated_by(m, y) {
        let a = choose|a: int| 0 <= a < m.len() && 0 <= a && weights_le(#[trigger] m[a], y);
        lemma_multimin_minimal(s, a);
        let j = choose|j: int| 0 <= j < s.len() && #[trigger] s[j] == m[a];
        assert(weights_le(s[j], y));
    }
}

/// A concatenation covers what either part covers.
pub proof fn lemma_cover_concat(a: Seq<Weights>, b: Seq<Weights>, y: Weights)
    ensures
        dominated_by(a + b, y) == (dominated_by(a, y) || dominated_by(b, y)),
{
    let c = a + b;
    if dominated_by(a, y) {
        let j = choose|j: int| 0 <= j < a.len() && 0 <= j && weights_le(#[trigger] a[j], y);
        assert(c[j] == a[j]);
        assert(weights_le(c[j], y));
    }
    if dominated_by(b, y) {
        let j = choose|j: int| 0 <= j < b.len() && 0 <= j && weights_le(#[trigger] b[j], y);
        assert(c[a.len() + j] == b[j]);
        assert(weights_le(c[a.len() + j], y));
    }
    if dominated_by(c, y) {
        let j = choose|j: int| 0 <= j < c.len() && 0 <= j && weights_le(#[trigger] c[j], y);
        if j < a.len() {
            assert(weights_le(a[j], y));
        } else {
            assert(c[j] == b[j - a.len()]);
            assert(weights_le(b[j - a.len()], y));
        }
    }
}

/// Whatever covers `x` covers everything above `x`.
pub proof fn lemma_cover_upward(f: Seq<Weights>, x: Weights, y: Weights)
    requires
        dominated_by(f, x),
        weights_le(x, y),
    ensures
        dominated_by(f, y),
{
    let j = choose|j: int| 0 <= j < f.len() && 0 <= j && weights_le(#[trigger] f[j], x);
    lemma_le_transitive(f[j], x, y);
    assert(weights_le(f[j], y));
}

proof fn lemma_covered_prefix(a: Seq<Weights>, b: Seq<Weights>, n: nat)
    requires
        is_antichain(b),
        forall|i: int| 0 <= i < a.len() ==> dominated_by(b, #[trigger] a[i]),
        n <= a.len() + b.len(),
    ensures
        pareto_prefix(a + b, n) == (if n <= a.len() {
            Seq::<Weights>::empty()
        } else {
            b.take(n - a.len())
        }),
    decreases n,
{
    let c = a + b;
    if n > 0 {
        lemma_covered_prefix(a, b, (n - 1) as nat);
        let kept = pareto_prefix(c, (n - 1) as nat);
        let t = c[n - 1];
        if n <= a.len() {
            assert(t == a[n - 1]);
            let j = choose|j: int| 0 <= j < b.len() && 0 <= j && weights_le(#[trigger] b[j], t);
            assert(c[a.len() + j] == b[j]);
            assert(weights_le(c[a.len() + j], t));
            assert(dominated_from(c, n as int, t));
        } else {
            let k = n - 1 - a.len();
            assert(t == b[k]);
            if dominated_from(c, n as int, t) {
                let j = choose|j: int| n <= j < c.len() && 0 <= j && weights_le(#[trigger] c[j], t);
                assert(c[j] == b[j - a.len()]);
                assert(!weights_le(b[j - a.len()], b[k]));
            }
            if dominated_by(kept, t) {
                let j = choose|j: int|
                    0 <= j < kept.len() && 0 <= j && weights_le(#[trigger] kept[j], t);
                assert(kept[j] == b[j]);
                assert(!weights_le(b[j], b[k]));
            }
            assert(b.take(n - a.len()) == b.take(k).push(b[k]));
            if k == 0 {
                assert(b.take(0) == Seq::<Weights>::empty());
            }
        }
    }
}

/// Candidates that an antichain already covers do not change it.
pub proof fn lemma_multimin_covered(a: Seq<Weights>, b: Seq<Weights>)
    requires
        is_antichain(b),
        forall|i: int| 0 <= i < a.len() ==> dominated_by(b, #[trigger] a[i]),
    ensures
        multimin_spec(a + b) == b,
{
    lemma_covered_prefix(a, b, (a.len() + b.len()) as nat);
    assert(b.take(b.len() as int) == b);
    if b.len() == 0 {
        assert(b == Seq::<Weights>::empty());
    }
}

/// Where candidates change an antichain, the result has an element that the
/// antichain did not cover.
pub proof fn lemma_multimin_progress(a: Seq<Weights>, b: Seq<Weights>) -> (x: Weights)
    requires
        is_antichain(b),
        multimin_spec(a + b) != b,
    ensures
        occurs(multimin_spec(a + b), x),
        occurs(a + b, x),
        !dominated_by(b, x),
{
    let c = a + b;
    let m = multimin_spec(c);
    if forall|i: int| 0 <= i < a.len() ==> dominated_by(b, #[trigger] a[i]) {
        lemma_multimin_covered(a, b);
    }
    let i = choose|i: int| 0 <= i < a.len() && !dominated_by(b, #[trigger] a[i]);
    assert(c[i] == a[i]);
    lemma_multimin_covers(c, i);
    let k = choose|k: int| 0 <= k < m.len() && 0 <= k && weights_le(#[trigger] m[k], a[i]);
    if dominated_by(b, m[k]) {
        lemma_cover_upward(b, m[k], a[i]);
    }
    lemma_multimin_minimal(c, k);
    m[k]
}

/// The elements among the first `n` of `f` that are not strictly above `w`.
pub open spec fn not_above_prefix(f: Seq<Weights>, w: Weights, n: nat) -> Seq<Weights>
    decreases n,
{
    if n == 0 {
        Seq::empty()
    } else {
        let kept = not_above_prefix(f, w, (n - 1) as nat);
        if weights_lt(w, f[n - 1]) {
            kept
        } else {
            kept.push(f[n - 1])
        }
    }
}

/// The elements of `f` that are not strictly above `w`, in order.
pub open spec fn not_above(f: Seq<Weights>, w: Weights) -> Seq<Weights> {
    not_above_prefix(f, w, f.len())
}

proof fn lemma_not_above_prefix(f: Seq<Weights>, w: Weights, n: nat)
    requires
        n <= f.len(),
    ensures
        forall|a: int|
            #![trigger not_above_prefix(f, w, n)[a]]
            0 <= a < not_above_prefix(f, w, n).len() ==> !weights_lt(
                w,
                not_above_prefix(f, w, n)[a],
            ) && exists|i: int| 0 <= i < n && #[trigger] f[i] == not_above_prefix(f, w, n)[a],
        forall|i: int|
            0 <= i < n && !weights_lt(w, #[trigger] f[i]) ==> occurs(
                not_above_prefix(f, w, n),
                f[i],
            ),
        is_antichain(f) ==> is_antichain(not_above_prefix(f, w, n)),
    decreases n,
{
    if n > 0 {
        lemma_not_above_prefix(f, w, (n - 1) as nat);
        let kept = not_above_prefix(f, w, (n - 1) as nat);
        let r = not_above_prefix(f, w, n);
        assert forall|a: int| #![trigger r[a]] 0 <= a < r.len() implies !weights_lt(w, r[a])
            && exists|i: int| 0 <= i < n && #[trigger] f[i] == r[a] by {
            if a < kept.len() {
                assert(r[a] == kept[a]);
                let i = choose|i: int| 0 <= i < n - 1 && #[trigger] f[i] == kept[a];
                assert(f[i] == r[a]);
            } else {
                assert(f[n - 1] == r[a]);
            }
        }
        assert forall|i: int| 0 <= i < n && !weights_lt(w, #[trigger] f[i]) implies occurs(
            r,
            f[i],
        ) by {
            if i < n - 1 {
                assert(occurs(kept, f[i]));
                let a = choose|a: int| 0 <= a < kept.len() && #[trigger] kept[a] == f[i];
                assert(r[a] == f[i]);
            } else {
                assert(r[r.len() - 1] == f[i]);
            }
        }
        if is_antichain(f) {
            assert forall|a: int, b: int|
                #![trigger r[a], r[b]]
                0 <= a < r.len() && 0 <= b < r.len() && a != b implies !weights_le(r[a], r[b]) by {
                if a < kept.len() && b < kept.len() {
                    assert(!weights_le(kept[a], kept[b]));
                } else if a < kept.len() {
                    let i = choose|i: int| 0 <= i < n - 1 && #[trigger] f[i] == kept[a];
                    assert(!weights_le(f[i], f[n - 1]));
                } else {
                    let i = choose|i: int| 0 <= i < n - 1 && #[trigger] f[i] == kept[b];
                    assert(!weights_le(f[n - 1], f[i]));
                }
            }
        }
    }
}

/// What `not_above` keeps: exactly the elements that are not strictly above
/// `w`, and an antichain stays one.
pub proof fn lemma_not_above(f: Seq<Weights>, w: Weights)
    ensures
        forall|a: int|
            #![trigger not_above(f, w)[a]]
            0 <= a < not_above(f, w).len() ==> !weights_lt(w, not_above(f, w)[a]) && occurs(
                f,
                not_above(f, w)[a],
            ),
        forall|i: int|
            0 <= i < f.len() && !weights_lt(w, #[trigger] f[i]) ==> occurs(not_above(f, w), f[i]),
        is_antichain(f) ==> is_antichain(not_above(f, w)),
{
    lemma_not_above_prefix(f, w, f.len());
    let r = not_above(f, w);
    assert forall|a: int| #![trigger r[a]] 0 <= a < r.len() implies occurs(f, r[a]) by {
        let i = choose|i: int| 0 <= i < f.len() && #[trigger] f[i] == r[a];
        assert(f[i] == r[a]);
    }
}

/// Whether some element of `list` from position `from` on is `<= t`.
pub fn any_below(list: &[MultiDistance], from: usize, t: &MultiDistance) -> (r: bool)
    requires
        from <= list@.len(),
    ensures
        r == dominated_from(models(list@), from as int, t@),
{
    let mut j: usize = from;
    while j < list.len()
        invariant
            from <= j <= list@.len(),
            forall|k: int| from <= k < j ==> !weights_le(#[trigger] models(list@)[k], t@),
        decreases list.len() - j,
    {
        if list[j].le(t) {
            assert(weights_le(models(list@)[j as int], t@));
            return true;
        }
        j += 1;
    }
    false
}

/// The Pareto-minimal elements of `dists`, in the order of `dists`.
pub fn multimin(dists: &[MultiDistance]) -> (r: Vec<MultiDistance>)
    ensures
        models(r@) == multimin_spec(models(dists@)),
{
    let mut minlist: Vec<MultiDistance> = Vec::new();
    let mut i: usize = 0;
    while i < dists.len()
        invariant
            i <= dists@.len(),
            models(minlist@) == pareto_prefix(models(dists@), i as nat),
        decreases dists.len() - i,
    {
        let t = &dists[i];
        let found_smaller = any_below(dists, i + 1, t) || any_below(
            minlist.as_slice(),
            0,
            t,
        );
        if !found_smaller {
            let ghost before = minlist@;
            minlist.push(t.clone());
            assert(models(minlist@) == models(before).push(t@));
        }
        i += 1;
    }
    minlist
}

/// Every element of `f` with `e` added.
pub open spec fn extended(f: Seq<Weights>, e: Weights) -> Seq<Weights> {
    Seq::new(f.len(), |a: int| weights_add(f[a], e))
}

/// A copy of the front.
pub fn clone_front(front: &Vec<MultiDistance>) -> (r: Vec<MultiDistance>)
    ensures
        models(r@) == models(front@),
{
    let mut r: Vec<MultiDistance> = Vec::new();
    let mut i: usize = 0;
    while i < front.len()
        invariant
            i <= front.len(),
            r@.len() == i,
            forall|j: int| 0 <= j < i ==> (#[trigger] r@[j])@ == front@[j]@,
        decreases front.len() - i,
    {
        r.push(front[i].clone());
        i += 1;
    }
    assert(models(r@) =~= models(front@));
    r
}

/// The elements of `a` followed by those of `b`.
pub fn concat_fronts(a: &Vec<MultiDistance>, b: &Vec<MultiDistance>) -> (r: Vec<MultiDistance>)
    ensures
        models(r@) == models(a@) + models(b@),
{
    let mut r = clone_front(a);
    proof {
        assert(models(r@).len() == models(a@).len());
        assert forall|j: int| 0 <= j < a@.len() implies (#[trigger] r@[j])@ == a@[j]@ by {
            assert(models(r@)[j] == models(a@)[j]);
        }
    }
    let mut i: usize = 0;
    while i < b.len()
        invariant
            i <= b.len(),
            r@.len() == a@.len() + i,
            forall|j: int| 0 <= j < a@.len() ==> (#[trigger] r@[j])@ == a@[j]@,
            forall|j: int| 0 <= j < i ==> (#[trigger] r@[a@.len() + j])@ == b@[j]@,
        decreases b.len() - i,
    {
        r.push(b[i].clone());
        i += 1;
    }
    proof {
        let c = models(a@) + models(b@);
        assert(models(r@).len() == c.len());
        assert forall|j: int| 0 <= j < c.len() implies models(r@)[j] == c[j] by {
            if j >= a@.len() {
                assert(r@[a@.len() + (j - a@.len())]@ == b@[j - a@.len()]@);
            } else {
                assert(r@[j]@ == a@[j]@);
            }
        }
        assert(models(r@) =~= c);
    }
    r
}

/// Every element of `front` with `edge` added.
pub fn extend_front(front: &Vec<MultiDistance>, edge: &MultiDistance) -> (r: Vec<MultiDistance>)
    ensures
        models(r@) == extended(models(front@), edge@),
{
    let mut r: Vec<MultiDistance> = Vec::new();
    let mut i: usize = 0;
    while i < front.len()
        invariant
            i <= front.len(),
            r@.len() == i,
            forall|j: int| 0 <= j < i ==> (#[trigger] r@[j])@ == weights_add(front@[j]@, edge@),
        decreases front.len() - i,
    {
        r.push(front[i].plus(edge));
        i += 1;
    }
    assert(models(r@) =~= extended(models(front@), edge@));
    r
}

/// The elements of `front` that are not strictly above `w`, in order.
pub fn drop_above(front: &Vec<MultiDistance>, w: &MultiDistance) -> (r: Vec<MultiDistance>)
    ensures
        models(r@) == not_above(models(front@), w@),
{
    let mut r: Vec<MultiDistance> = Vec::new();
    let mut i: usize = 0;
    while i < front.len()
        invariant
            i <= front.len(),
            models(r@) == not_above_prefix(models(front@), w@, i as nat),
        decreases front.len() - i,
    {
        if !w.lt(&front[i]) {
            let ghost before = r@;
            r.push(front[i].clone());
            assert(models(r@) =~= models(before).push(front@[i as int]@));
        }
        i += 1;
    }
    r
}

/// Whether some element of `front` is strictly below `w`.
pub fn front_beats(front: &Vec<MultiDistance>, w: &MultiDistance) -> (r: bool)
    ensures
        r == exists|a: int|
            0 <= a < models(front@).len() && weights_lt(#[trigger] models(front@)[a], w@),
{
    let mut i: usize = 0;
    while i < front.len()
        invariant
            i <= front.len(),
            forall|a: int| 0 <= a < i ==> !weights_lt(#[trigger] models(front@)[a], w@),
        decreases front.len() - i,
    {
        if front[i].lt(w) {
            assert(weights_lt(models(front@)[i as int], w@));
            return true;
        }
        i += 1;
    }
    false
}

/// Whether `w` occurs in `front`.
pub fn front_contains(front: &Vec<MultiDistance>, w: &MultiDistance) -> (r: bool)
    ensures
        r == occurs(models(front@), w@),
{
    let mut i: usize = 0;
    while i < front.len()
        invariant
            i <= front.len(),
            forall|a: int| 0 <= a < i ==> #[trigger] models(front@)[a] != w@,
        decreases front.len() - i,
    {
        if front[i] == *w {
            assert(models(front@)[i as int] == w@);
            return true;
        }
        i += 1;
    }
    false
}

/// Whether the two fronts hold the same distances in the same order.
pub fn same_front(a: &Vec<MultiDistance>, b: &Vec<MultiDistance>) -> (r: bool)
    ensures
        r == (models(a@) == models(b@)),
{
    if a.len() != b.len() {
        assert(models(a@).len() != models(b@).len());
        return false;
    }
    let mut i: usize = 0;
    while i < a.len()
        invariant
            i <= a.len(),
            a.len() == b.len(),
            forall|j: int| 0 <= j < i ==> #[trigger] models(a@)[j] == models(b@)[j],
        decreases a.len() - i,
    {
        if !(a[i] == b[i]) {
            assert(models(a@)[i as int] != models(b@)[i as int]);
            return false;
        }
        i += 1;
    }
    assert(models(a@) =~= models(b@));
    true
}

/// Whether the front holds the zero distance and nothing else.
pub fn is_zero_front(front: &Vec<MultiDistance>) -> (r: bool)
    ensures
        r == (models(front@) == seq![weights_zero()]),
{
    if front.len() == 1 {
        let r = front[0].is_zero();
        proof {
            if r {
                assert(models(front@) =~= seq![weights_zero()]);
            } else {
                assert(models(front@)[0] != seq![weights_zero()][0]);
            }
        }
        r
    } else {
        assert(models(front@).len() != seq![weights_zero()].len());
        false
    }
}

} // verus!
