//! The mathematical model of a multi-distance and its algebra.
//!
//! A weight vector is a finite map from layers to positive integers; a layer
//! that is not a key carries weight zero.  Addition is componentwise and
//! saturates at `u64::MAX`, which plays the role of infinity.
use crate::multidistance::EdgeLayerID;
use vstd::prelude::*;

verus! {

/// The model of a multi-distance: the non-zero weight of each layer.
pub type Weights = Map<EdgeLayerID, u64>;

/// The weight that `w` carries in layer `k`; zero where `k` is not a key.
pub open spec fn weight_at(w: Weights, k: EdgeLayerID) -> nat {
    if w.dom().contains(k) {
        w[k] as nat
    } else {
        0
    }
}

/// A model is canonical when it has finitely many keys and stores no zero.
/// Canonical models are equal exactly when they carry the same weight in
/// every layer.
pub open spec fn canonical(w: Weights) -> bool {
    &&& w.dom().finite()
    &&& forall|k: EdgeLayerID| w.dom().contains(k) ==> w[k] > 0
}

/// The zero distance.
pub open spec fn weights_zero() -> Weights {
    Map::empty()
}

/// `a <= b`: no layer of `a` is heavier than the same layer of `b`.
pub open spec fn weights_le(a: Weights, b: Weights) -> bool {
    forall|k: EdgeLayerID|
        #![trigger weight_at(a, k)]
        #![trigger weight_at(b, k)]
        weight_at(a, k) <= weight_at(b, k)
}

/// `a < b`: `a <= b` and some layer of `a` is strictly lighter.
pub open spec fn weights_lt(a: Weights, b: Weights) -> bool {
    weights_le(a, b) && !weights_le(b, a)
}

/// Neither `a <= b` nor `b <= a`.
pub open spec fn weights_incomparable(a: Weights, b: Weights) -> bool {
    !weights_le(a, b) && !weights_le(b, a)
}

/// The sum of two layer weights, capped at `u64::MAX`.
pub open spec fn saturating_sum(x: nat, y: nat) -> u64 {
    if x + y > u64::MAX {
        u64::MAX
    } else {
        (x + y) as u64
    }
}

/// Componentwise saturating sum over the union of the keys.
pub open spec fn weights_add(a: Weights, b: Weights) -> Weights {
    Map::new(
        |k: EdgeLayerID| a.dom().contains(k) || b.dom().contains(k),
        |k: EdgeLayerID| saturating_sum(weight_at(a, k), weight_at(b, k)),
    )
}

/// The weight of every layer of a sum is the saturating sum of the parts.
pub proof fn lemma_weight_at_add(a: Weights, b: Weights, k: EdgeLayerID)
    ensures
        weight_at(weights_add(a, b), k) == saturating_sum(weight_at(a, k), weight_at(b, k)),
{
}

/// Zero is a right and left identity of addition.
pub proof fn lemma_add_zero(a: Weights)
    ensures
        weights_add(a, weights_zero()) == a,
        weights_add(weights_zero(), a) == a,
{
    assert(weights_add(a, weights_zero()) =~= a);
    assert(weights_add(weights_zero(), a) =~= a);
}

/// Addition is commutative.
pub proof fn lemma_add_commutative(a: Weights, b: Weights)
    ensures
        weights_add(a, b) == weights_add(b, a),
{
    assert(weights_add(a, b) =~= weights_add(b, a));
}

/// Addition is associative.
pub proof fn lemma_add_associative(a: Weights, b: Weights, c: Weights)
    ensures
        weights_add(weights_add(a, b), c) == weights_add(a, weights_add(b, c)),
{
    let l = weights_add(weights_add(a, b), c);
    let r = weights_add(a, weights_add(b, c));
    assert forall|k: EdgeLayerID| l.dom().contains(k) implies #[trigger] l[k] == r[k] by {
        lemma_weight_at_add(a, b, k);
        lemma_weight_at_add(b, c, k);
    }
    assert(l =~= r);
}

/// Addition is monotone: `a <= b` implies `a + c <= b + c`.
pub proof fn lemma_add_monotone(a: Weights, b: Weights, c: Weights)
    requires
        weights_le(a, b),
    ensures
        weights_le(weights_add(a, c), weights_add(b, c)),
{
    assert forall|k: EdgeLayerID|
        weight_at(weights_add(a, c), k) <= weight_at(weights_add(b, c), k) by {
        lemma_weight_at_add(a, c, k);
        lemma_weight_at_add(b, c, k);
        assert(weight_at(a, k) <= weight_at(b, k));
    }
}

/// Adding a weight never makes a distance smaller.
pub proof fn lemma_add_increases(a: Weights, b: Weights)
    ensures
        weights_le(a, weights_add(a, b)),
        weights_le(b, weights_add(a, b)),
{
    assert forall|k: EdgeLayerID| weight_at(a, k) <= weight_at(weights_add(a, b), k) by {
        lemma_weight_at_add(a, b, k);
    }
    assert forall|k: EdgeLayerID| weight_at(b, k) <= weight_at(weights_add(a, b), k) by {
        lemma_weight_at_add(a, b, k);
    }
}

/// The sum of canonical models is canonical.
pub proof fn lemma_add_canonical(a: Weights, b: Weights)
    requires
        canonical(a),
        canonical(b),
    ensures
        canonical(weights_add(a, b)),
{
    let s = weights_add(a, b);
    assert(s.dom() =~= a.dom().union(b.dom()));
}

/// `<=` is reflexive.
pub proof fn lemma_le_reflexive(a: Weights)
    ensures
        weights_le(a, a),
{
}

/// `<=` is transitive.
pub proof fn lemma_le_transitive(a: Weights, b: Weights, c: Weights)
    requires
        weights_le(a, b),
        weights_le(b, c),
    ensures
        weights_le(a, c),
{
    assert forall|k: EdgeLayerID| weight_at(a, k) <= weight_at(c, k) by {
        assert(weight_at(a, k) <= weight_at(b, k));
        assert(weight_at(b, k) <= weight_at(c, k));
    }
}

/// `<=` is antisymmetric on canonical models.
pub proof fn lemma_le_antisymmetric(a: Weights, b: Weights)
    requires
        canonical(a),
        canonical(b),
        weights_le(a, b),
        weights_le(b, a),
    ensures
        a == b,
{
    assert forall|k: EdgeLayerID| a.dom().contains(k) <==> b.dom().contains(k) by {
        assert(weight_at(a, k) <= weight_at(b, k));
        assert(weight_at(b, k) <= weight_at(a, k));
    }
    assert forall|k: EdgeLayerID| a.dom().contains(k) implies a[k] == b[k] by {
        assert(weight_at(a, k) <= weight_at(b, k));
        assert(weight_at(b, k) <= weight_at(a, k));
    }
    assert(a =~= b);
}

/// Canonical models that carry the same weight in every layer are equal.
pub proof fn lemma_weights_equal(a: Weights, b: Weights)
    requires
        canonical(a),
        canonical(b),
        forall|k: EdgeLayerID| weight_at(a, k) == weight_at(b, k),
    ensures
        a == b,
{
    assert forall|k: EdgeLayerID| weight_at(a, k) <= weight_at(b, k) by {}
    assert forall|k: EdgeLayerID| weight_at(b, k) <= weight_at(a, k) by {}
    lemma_le_antisymmetric(a, b);
}

/// The zero distance is below every distance.
pub proof fn lemma_zero_least(a: Weights)
    ensures
        weights_le(weights_zero(), a),
        canonical(weights_zero()),
{
}

} // verus!
