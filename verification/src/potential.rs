//! A natural number that falls whenever a family of fronts covers more.
//!
//! The weight vectors over finitely many layers, paired with a node, are
//! numbered by their digits in base 2^64.  The potential of a family of
//! fronts counts the numbers whose vector no element of the front of their
//! node is below.  It bounds how often fronts can be refined.
use crate::multidistance::EdgeLayerID;
use crate::pareto::dominated_by;
use crate::weights::{canonical, weight_at, Weights};
use vstd::prelude::*;
use vstd::set_lib::{lemma_int_range, lemma_len_subset, set_int_range};

verus! {

/// The front that `fronts` holds for `v`; empty where it holds none.
pub open spec fn front_at(fronts: Map<usize, Seq<Weights>>, v: usize) -> Seq<Weights> {
    if fronts.dom().contains(v) {
        fronts[v]
    } else {
        Seq::empty()
    }
}

/// The base of the numbering: one more than the largest layer weight.
pub open spec fn base() -> nat {
    0x1_0000_0000_0000_0000
}

/// The number of digit strings of length `n`.
pub open spec fn span(n: nat) -> nat
    decreases n,
{
    if n == 0 {
        1
    } else {
        base() * span((n - 1) as nat)
    }
}

/// The number with the digits `d`, lowest first.
pub open spec fn encode(d: Seq<nat>) -> nat
    decreases d.len(),
{
    if d.len() == 0 {
        0
    } else {
        d[0] + base() * encode(d.drop_first())
    }
}

/// The lowest `n` digits of `e`, lowest first.
pub open spec fn decode(e: nat, n: nat) -> Seq<nat>
    decreases n,
{
    if n == 0 {
        Seq::empty()
    } else {
        seq![e % base()] + decode(e / base(), (n - 1) as nat)
    }
}

/// Decoding undoes encoding, and the code of `n` digits is below `span(n)`.
pub proof fn lemma_encode_decode(d: Seq<nat>)
    requires
        forall|i: int| 0 <= i < d.len() ==> #[trigger] d[i] < base(),
    ensures
        encode(d) < span(d.len()),
        decode(encode(d), d.len()) == d,
    decreases d.len(),
{
    if d.len() > 0 {
        let rest = d.drop_first();
        assert forall|i: int| 0 <= i < rest.len() implies #[trigger] rest[i] < base() by {
            assert(rest[i] == d[i + 1]);
        }
        lemma_encode_decode(rest);
        let q = encode(rest);
        let b = base();
        let x = d[0] + b * q;
        assert(d[0] < b);
        assert(x == q * b + d[0]) by (nonlinear_arith)
            requires
                x == d[0] + b * q,
        ;
        vstd::arithmetic::div_mod::lemma_fundamental_div_mod_converse(
            x as int,
            b as int,
            q as int,
            d[0] as int,
        );
        assert(b * q + b <= b * span(rest.len())) by (nonlinear_arith)
            requires
                q < span(rest.len()),
        ;
        assert(decode(x, d.len()) =~= d) by {
            assert(decode(x, d.len()) == seq![x % b] + decode(x / b, (d.len() - 1) as nat));
            assert(seq![d[0]] + rest =~= d);
        }
    }
}

/// The weight vector with weight `d[i]` in layer `layers[i]`.
pub open spec fn weights_of(layers: Seq<EdgeLayerID>, d: Seq<nat>) -> Weights {
    Map::new(
        |k: EdgeLayerID| layers.contains(k) && d[layers.index_of(k)] > 0,
        |k: EdgeLayerID| d[layers.index_of(k)] as u64,
    )
}

/// The weight of `x` in each of the layers.
pub open spec fn digits_of(layers: Seq<EdgeLayerID>, x: Weights) -> Seq<nat> {
    Seq::new(layers.len(), |i: int| weight_at(x, layers[i]))
}

/// A canonical vector over the layers is the vector of its digits.
pub proof fn lemma_weights_of_digits(layers: Seq<EdgeLayerID>, x: Weights)
    requires
        canonical(x),
        x.dom().subset_of(layers.to_set()),
    ensures
        weights_of(layers, digits_of(layers, x)) == x,
        digits_of(layers, x).len() == layers.len(),
        forall|i: int| 0 <= i < layers.len() ==> #[trigger] digits_of(layers, x)[i] < base(),
{
    let d = digits_of(layers, x);
    let y = weights_of(layers, d);
    assert forall|k: EdgeLayerID| x.dom().contains(k) <==> y.dom().contains(k) by {
        if x.dom().contains(k) {
            assert(layers.to_set().contains(k));
            assert(layers.contains(k));
            let i = layers.index_of(k);
            assert(layers[i] == k);
        }
        if y.dom().contains(k) {
            let i = layers.index_of(k);
            assert(layers[i] == k);
        }
    }
    assert forall|k: EdgeLayerID| x.dom().contains(k) implies x[k] == y[k] by {
        assert(layers.to_set().contains(k));
        let i = layers.index_of(k);
        assert(layers[i] == k);
    }
    assert(x =~= y);
}

/// No element of the front of the node of `z` is below the vector of `z`.
pub open spec fn uncovered(layers: Seq<EdgeLayerID>, fronts: Map<usize, Seq<Weights>>, z: int) -> bool {
    let d = decode(z as nat, layers.len() + 1);
    !dominated_by(front_at(fronts, d[0] as usize), weights_of(layers, d.drop_first()))
}

/// The codes that `fronts` leaves uncovered.
pub open spec fn uncovered_codes(
    layers: Seq<EdgeLayerID>,
    fronts: Map<usize, Seq<Weights>>,
) -> Set<int> {
    set_int_range(0, span(layers.len() + 1) as int).filter(
        |z: int| uncovered(layers, fronts, z),
    )
}

/// How many codes `fronts` leaves uncovered.
pub open spec fn potential(layers: Seq<EdgeLayerID>, fronts: Map<usize, Seq<Weights>>) -> nat {
    uncovered_codes(layers, fronts).len()
}

/// `later` covers whatever `earlier` covers.
pub open spec fn covers_more(
    earlier: Map<usize, Seq<Weights>>,
    later: Map<usize, Seq<Weights>>,
) -> bool {
    forall|v: usize, y: Weights|
        #![trigger dominated_by(front_at(earlier, v), y)]
        dominated_by(front_at(earlier, v), y) ==> dominated_by(front_at(later, v), y)
}

/// Covering more never raises the potential.
pub proof fn lemma_potential_monotone(
    layers: Seq<EdgeLayerID>,
    earlier: Map<usize, Seq<Weights>>,
    later: Map<usize, Seq<Weights>>,
)
    requires
        covers_more(earlier, later),
    ensures
        potential(layers, later) <= potential(layers, earlier),
        uncovered_codes(layers, earlier).finite(),
        uncovered_codes(layers, later).subset_of(uncovered_codes(layers, earlier)),
{
    let top = span(layers.len() + 1) as int;
    lemma_int_range(0, top);
    let a = uncovered_codes(layers, earlier);
    let b = uncovered_codes(layers, later);
    lemma_len_subset(a, set_int_range(0, top));
    assert forall|z: int| b.contains(z) implies a.contains(z) by {
        let d = decode(z as nat, layers.len() + 1);
        let v = d[0] as usize;
        let y = weights_of(layers, d.drop_first());
        if dominated_by(front_at(earlier, v), y) {
            assert(dominated_by(front_at(later, v), y));
        }
    }
    lemma_len_subset(b, a);
}

/// Covering more, and covering at `v` a canonical vector over the layers that
/// was not covered before, lowers the potential.
pub proof fn lemma_potential_decreases(
    layers: Seq<EdgeLayerID>,
    earlier: Map<usize, Seq<Weights>>,
    later: Map<usize, Seq<Weights>>,
    v: usize,
    x: Weights,
)
    requires
        covers_more(earlier, later),
        canonical(x),
        x.dom().subset_of(layers.to_set()),
        !dominated_by(front_at(earlier, v), x),
        dominated_by(front_at(later, v), x),
    ensures
        potential(layers, later) < potential(layers, earlier),
{
    lemma_potential_monotone(layers, earlier, later);
    let a = uncovered_codes(layers, earlier);
    let b = uncovered_codes(layers, later);
    let digits = seq![v as nat] + digits_of(layers, x);
    lemma_weights_of_digits(layers, x);
    assert forall|i: int| 0 <= i < digits.len() implies #[trigger] digits[i] < base() by {
        if i > 0 {
            assert(digits[i] == digits_of(layers, x)[i - 1]);
        }
    }
    lemma_encode_decode(digits);
    let z = encode(digits) as int;
    assert(digits.len() == layers.len() + 1);
    assert(decode(z as nat, layers.len() + 1) == digits);
    assert(digits[0] as usize == v);
    assert(digits.drop_first() =~= digits_of(layers, x));
    assert(a.contains(z));
    assert(!b.contains(z));
    assert(b.subset_of(a.remove(z)));
    lemma_len_subset(b, a.remove(z));
}

} // verus!
