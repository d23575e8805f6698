//! Node and layer identifiers, and the executable multi-distance type.
use crate::weights::{
    canonical, lemma_add_canonical, lemma_weights_equal, saturating_sum, weight_at, weights_add,
    weights_le, weights_zero, Weights,
};
use vstd::prelude::*;

verus! {

/// Opaque handle of a node.
#[derive(Clone, Copy, PartialEq, Eq, Hash, Debug, Structural)]
pub struct NodeID(pub usize);

/// One channel of a weight vector.
#[derive(Clone, Copy, PartialEq, Eq, Hash, Debug, Structural)]
pub struct EdgeLayerID {
    pub layer_start: usize,
    pub layer_end: usize,
    pub layer_weight_index: usize,
}

/// No layer occurs twice among the entries and no entry is zero.
pub open spec fn entries_wf(s: Seq<(EdgeLayerID, u64)>) -> bool {
    &&& forall|i: int, j: int|
        #![trigger s[i], s[j]]
        0 <= i < j < s.len() ==> s[i].0 != s[j].0
    &&& forall|i: int| 0 <= i < s.len() ==> (#[trigger] s[i]).1 > 0
}

/// Some entry of `s` is for layer `k`.
pub open spec fn has_layer(s: Seq<(EdgeLayerID, u64)>, k: EdgeLayerID) -> bool {
    exists|i: int| 0 <= i < s.len() && (#[trigger] s[i]).0 == k
}

/// The position of an entry for layer `k`.
pub open spec fn layer_index(s: Seq<(EdgeLayerID, u64)>, k: EdgeLayerID) -> int {
    choose|i: int| 0 <= i < s.len() && (#[trigger] s[i]).0 == k
}

/// The weight vector that a list of entries stands for.
pub open spec fn entries_model(s: Seq<(EdgeLayerID, u64)>) -> Weights {
    Map::new(|k: EdgeLayerID| has_layer(s, k), |k: EdgeLayerID| s[layer_index(s, k)].1)
}

/// In a well-formed list every entry is what the model maps its layer to.
pub proof fn lemma_entries_model(s: Seq<(EdgeLayerID, u64)>)
    requires
        entries_wf(s),
    ensures
        canonical(entries_model(s)),
        forall|i: int|
            0 <= i < s.len() ==> entries_model(s).dom().contains((#[trigger] s[i]).0)
                && entries_model(s)[s[i].0] == s[i].1,
        forall|k: EdgeLayerID|
            entries_model(s).dom().contains(k) ==> 0 <= layer_index(s, k) < s.len() && s[layer_index(
                s,
                k,
            )].0 == k,
{
    let m = entries_model(s);
    let keys = s.map_values(|e: (EdgeLayerID, u64)| e.0);
    assert(m.dom() =~= keys.to_set()) by {
        assert forall|k: EdgeLayerID| m.dom().contains(k) implies keys.to_set().contains(k) by {
            let i = layer_index(s, k);
            assert(keys[i] == k);
        }
        assert forall|k: EdgeLayerID| keys.to_set().contains(k) implies m.dom().contains(k) by {
            let i = choose|i: int| 0 <= i < keys.len() && keys[i] == k;
            assert(s[i].0 == k);
        }
    }
    vstd::seq_lib::seq_to_set_is_finite(keys);
    assert forall|i: int| 0 <= i < s.len() implies m.dom().contains((#[trigger] s[i]).0) && m[s[i].0]
        == s[i].1 by {
        let k = s[i].0;
        assert(has_layer(s, k));
        let j = layer_index(s, k);
        assert(s[j].0 == k);
        assert(i == j);
    }
    assert forall|k: EdgeLayerID| m.dom().contains(k) implies m[k] > 0 by {
        let j = layer_index(s, k);
        assert(s[j].1 > 0);
    }
}

/// A weight or an accumulated path cost: one non-negative integer per layer.
///
/// Only layers with a non-zero weight are stored, each once, so that two
/// multi-distances are equal exactly when their models are.
#[derive(Debug)]
pub struct MultiDistance {
    total: Vec<(EdgeLayerID, u64)>,
}

impl View for MultiDistance {
    type V = Weights;

    closed spec fn view(&self) -> Weights {
        entries_model(self.total@)
    }
}

impl MultiDistance {
    #[verifier::type_invariant]
    spec fn inv(self) -> bool {
        entries_wf(self.total@)
    }

    /// The zero distance.
    pub fn new() -> (r: MultiDistance)
        ensures
            r@ == weights_zero(),
            canonical(r@),
    {
        let r = MultiDistance { total: Vec::new() };
        proof {
            lemma_entries_model(r.total@);
            assert(r@ =~= weights_zero());
        }
        r
    }

    /// The distance that carries `weight` in the one layer given, or the zero
    /// distance where `weight` is zero.
    pub fn from_tuple(
        layer_start: usize,
        layer_end: usize,
        layer_weight_index: usize,
        weight: u64,
    ) -> (r: MultiDistance)
        ensures
            canonical(r@),
            weight == 0 ==> r@ == weights_zero(),
            weight != 0 ==> r@ == Map::<EdgeLayerID, u64>::empty().insert(
                EdgeLayerID { layer_start, layer_end, layer_weight_index },
                weight,
            ),
    {
        let mut total: Vec<(EdgeLayerID, u64)> = Vec::new();
        if weight != 0 {
            let key = EdgeLayerID { layer_start, layer_end, layer_weight_index };
            total.push((key, weight));
        }
        proof {
            lemma_entries_model(total@);
            if weight != 0 {
                let key = EdgeLayerID { layer_start, layer_end, layer_weight_index };
                let single = Map::<EdgeLayerID, u64>::empty().insert(key, weight);
                assert(total@[0].0 == key);
                assert forall|k: EdgeLayerID|
                    weight_at(entries_model(total@), k) == weight_at(single, k) by {
                    if has_layer(total@, k) {
                        let j = layer_index(total@, k);
                        assert(total@[j].0 == k);
                    }
                }
                lemma_weights_equal(entries_model(total@), single);
            } else {
                assert(entries_model(total@) =~= weights_zero());
            }
        }
        MultiDistance { total }
    }

    /// The distance with the entries given.  Of several entries for one layer
    /// the weights are added; zero entries are dropped.
    pub fn from_entries(entries: &Vec<(EdgeLayerID, u64)>) -> (r: MultiDistance)
        ensures
            canonical(r@),
            r@ == entries_sum(entries@),
    {
        let mut total: Vec<(EdgeLayerID, u64)> = Vec::new();
        let mut i: usize = 0;
        proof {
            lemma_entries_model(total@);
            assert(entries_model(total@) =~= weights_zero());
        }
        while i < entries.len()
            invariant
                i <= entries.len(),
                entries_wf(total@),
                entries_model(total@) == entries_sum(entries@.take(i as int)),
            decreases entries.len() - i,
        {
            let (key, value) = entries[i];
            proof {
                assert(entries@.take(i + 1).drop_last() == entries@.take(i as int));
            }
            if value != 0 {
                add_entry(&mut total, key, value);
            }
            i += 1;
        }
        proof {
            assert(entries@.take(entries.len() as int) == entries@);
            lemma_entries_model(total@);
        }
        MultiDistance { total }
    }

    /// The stored entries: the layers of non-zero weight, each once.
    pub fn entries(&self) -> (r: Vec<(EdgeLayerID, u64)>)
        ensures
            entries_wf(r@),
            entries_model(r@) == self@,
    {
        proof {
            use_type_invariant(self);
        }
        copy_entries(&self.total)
    }

    /// Whether this is the zero distance.
    pub fn is_zero(&self) -> (r: bool)
        ensures
            r == (self@ == weights_zero()),
    {
        proof {
            use_type_invariant(self);
            lemma_entries_model(self.total@);
            if self.total@.len() == 0 {
                assert(self@ =~= weights_zero());
            } else {
                assert(self@.dom().contains(self.total@[0].0));
            }
        }
        self.total.len() == 0
    }

    /// The weight carried in layer `key`; zero where the layer is not stored.
    pub fn get(&self, key: &EdgeLayerID) -> (r: u64)
        ensures
            r == weight_at(self@, *key),
    {
        proof {
            use_type_invariant(self);
            lemma_entries_model(self.total@);
        }
        match position(&self.total, key) {
            Some(i) => self.total[i].1,
            None => 0,
        }
    }

    /// Adds `rhs` to this distance, layer by layer.
    pub fn add_to_self(&mut self, rhs: &Self)
        ensures
            canonical(final(self)@),
            final(self)@ == weights_add(old(self)@, rhs@),
    {
        let sum = self.plus(rhs);
        *self = sum;
    }

    /// The sum of the two distances.
    pub fn plus(&self, rhs: &Self) -> (r: MultiDistance)
        ensures
            canonical(r@),
            r@ == weights_add(self@, rhs@),
    {
        proof {
            use_type_invariant(self);
            use_type_invariant(rhs);
            lemma_entries_model(self.total@);
            lemma_entries_model(rhs.total@);
        }
        let mut total = copy_entries(&self.total);
        let mut i: usize = 0;
        while i < rhs.total.len()
            invariant
                i <= rhs.total.len(),
                entries_wf(rhs.total@),
                entries_wf(total@),
                canonical(self@),
                forall|k: EdgeLayerID|
                    weight_at(entries_model(total@), k) == (if has_layer(
                        rhs.total@.take(i as int),
                        k,
                    ) {
                        saturating_sum(weight_at(self@, k), weight_at(rhs@, k)) as nat
                    } else {
                        weight_at(self@, k)
                    }),
            decreases rhs.total.len() - i,
        {
            let (key, value) = rhs.total[i];
            let ghost prev = entries_model(total@);
            add_entry(&mut total, key, value);
            proof {
                lemma_entries_model(rhs.total@);
                let cur = entries_model(total@);
                let done = rhs.total@.take(i as int);
                let next = rhs.total@.take(i + 1);
                assert(next[i as int] == rhs.total@[i as int]);
                let single = Map::<EdgeLayerID, u64>::empty().insert(key, value);
                assert(rhs.total@[i as int].0 == key);
                assert(weight_at(rhs@, key) == value);
                assert forall|k: EdgeLayerID|
                    weight_at(cur, k) == (if has_layer(next, k) {
                        saturating_sum(weight_at(self@, k), weight_at(rhs@, k)) as nat
                    } else {
                        weight_at(self@, k)
                    }) by {
                    crate::weights::lemma_weight_at_add(prev, single, k);
                    if k == key {
                        assert(next[i as int].0 == k);
                        if has_layer(done, k) {
                            let j = choose|j: int|
                                0 <= j < done.len() && (#[trigger] done[j]).0 == k;
                            assert(rhs.total@[j].0 == k);
                        }
                    } else if has_layer(done, k) {
                        let j = choose|j: int| 0 <= j < done.len() && (#[trigger] done[j]).0 == k;
                        assert(next[j].0 == k);
                    } else {
                        if has_layer(next, k) {
                            let j = choose|j: int|
                                0 <= j < next.len() && (#[trigger] next[j]).0 == k;
                            assert(j < i);
                            assert(done[j].0 == k);
                        }
                    }
                }
            }
            i += 1;
        }
        proof {
            assert(rhs.total@.take(rhs.total.len() as int) == rhs.total@);
            let sum = weights_add(self@, rhs@);
            lemma_add_canonical(self@, rhs@);
            lemma_entries_model(total@);
            assert forall|k: EdgeLayerID| weight_at(entries_model(total@), k) == weight_at(sum, k) by {
                if has_layer(rhs.total@, k) {
                } else {
                    assert(!rhs@.dom().contains(k));
                }
            }
            lemma_weights_equal(entries_model(total@), sum);
        }
        MultiDistance { total }
    }

    /// `self <= other` in the layerwise order.
    pub fn le(&self, other: &Self) -> (r: bool)
        ensures
            r == weights_le(self@, other@),
    {
        proof {
            use_type_invariant(self);
            use_type_invariant(other);
            lemma_entries_model(self.total@);
            lemma_entries_model(other.total@);
        }
        let mut i: usize = 0;
        while i < self.total.len()
            invariant
                i <= self.total.len(),
                entries_wf(self.total@),
                forall|j: int|
                    0 <= j < i ==> (#[trigger] self.total@[j]).1 <= weight_at(
                        other@,
                        self.total@[j].0,
                    ),
            decreases self.total.len() - i,
        {
            let (key, value) = self.total[i];
            if other.get(&key) < value {
                proof {
                    lemma_entries_model(self.total@);
                    assert(weight_at(self@, key) == value);
                }
                return false;
            }
            i += 1;
        }
        proof {
            lemma_entries_model(self.total@);
            assert forall|k: EdgeLayerID| weight_at(self@, k) <= weight_at(other@, k) by {
                if self@.dom().contains(k) {
                    let j = layer_index(self.total@, k);
                    assert(self.total@[j].1 <= weight_at(other@, self.total@[j].0));
                }
            }
        }
        true
    }

    /// `self < other`: below `other` and different from it.
    pub fn lt(&self, other: &Self) -> (r: bool)
        ensures
            r == crate::weights::weights_lt(self@, other@),
    {
        self.le(other) && !other.le(self)
    }

    /// Does nothing at run time; tells the verifier that the model of a
    /// multi-distance is canonical.
    pub fn model_is_canonical(&self)
        ensures
            canonical(self@),
    {
        proof {
            use_type_invariant(self);
            lemma_entries_model(self.total@);
        }
    }
}

fn copy_entries(entries: &Vec<(EdgeLayerID, u64)>) -> (r: Vec<(EdgeLayerID, u64)>)
    ensures
        r@ == entries@,
{
    let mut r: Vec<(EdgeLayerID, u64)> = Vec::new();
    let mut i: usize = 0;
    while i < entries.len()
        invariant
            i <= entries.len(),
            r@ == entries@.take(i as int),
        decreases entries.len() - i,
    {
        r.push(entries[i]);
        proof {
            assert(entries@.take(i + 1) == entries@.take(i as int).push(entries@[i as int]));
        }
        i += 1;
    }
    proof {
        assert(entries@.take(entries.len() as int) == entries@);
    }
    r
}

fn position(entries: &Vec<(EdgeLayerID, u64)>, key: &EdgeLayerID) -> (r: Option<usize>)
    ensures
        match r {
            Some(i) => i < entries@.len() && entries@[i as int].0 == *key,
            None => !has_layer(entries@, *key),
        },
{
    let mut i: usize = 0;
    while i < entries.len()
        invariant
            i <= entries.len(),
            forall|j: int| 0 <= j < i ==> (#[trigger] entries@[j]).0 != *key,
        decreases entries.len() - i,
    {
        if entries[i].0 == *key {
            return Some(i);
        }
        i += 1;
    }
    None
}

fn add_entry(entries: &mut Vec<(EdgeLayerID, u64)>, key: EdgeLayerID, value: u64)
    requires
        entries_wf(old(entries)@),
        value > 0,
    ensures
        entries_wf(final(entries)@),
        entries_model(final(entries)@) == weights_add(
            entries_model(old(entries)@),
            Map::<EdgeLayerID, u64>::empty().insert(key, value),
        ),
{
    let ghost before = entries@;
    let found = position(entries, &key);
    match found {
        Some(i) => {
            let current = entries[i].1;
            entries.set(i, (key, current.saturating_add(value)));
        },
        None => {
            entries.push((key, value));
        },
    }
    proof {
        let after = entries@;
        let single = Map::<EdgeLayerID, u64>::empty().insert(key, value);
        let at: int = match found {
            Some(i) => i as int,
            None => before.len() as int,
        };
        assert(after[at].0 == key);
        assert(forall|j: int| 0 <= j < before.len() && j != at ==> after[j] == before[j]);
        assert(entries_wf(after));
        lemma_entries_model(after);
        lemma_entries_model(before);
        let sum = weights_add(entries_model(before), single);
        assert(canonical(single));
        lemma_add_canonical(entries_model(before), single);
        assert forall|k: EdgeLayerID| weight_at(entries_model(after), k) == weight_at(sum, k) by {
            crate::weights::lemma_weight_at_add(entries_model(before), single, k);
            if k == key {
                assert(weight_at(entries_model(after), k) == after[at].1);
                if found is Some {
                    assert(before[at].0 == key);
                    assert(weight_at(entries_model(before), k) == before[at].1);
                } else {
                    assert(!has_layer(before, k));
                }
            } else if has_layer(before, k) {
                let j = layer_index(before, k);
                assert(before[j].0 == k);
                assert(after[j] == before[j]);
                assert(weight_at(entries_model(after), k) == after[j].1);
                assert(weight_at(entries_model(before), k) == before[j].1);
            } else {
                if has_layer(after, k) {
                    let j = layer_index(after, k);
                    assert(after[j].0 == k);
                    assert(j != at);
                    assert(before[j].0 == k);
                }
            }
        }
        lemma_weights_equal(entries_model(after), sum);
    }
}

/// The sum of the distances that the entries stand for, one by one.
pub open spec fn entries_sum(s: Seq<(EdgeLayerID, u64)>) -> Weights
    decreases s.len(),
{
    if s.len() == 0 {
        weights_zero()
    } else if s.last().1 == 0 {
        entries_sum(s.drop_last())
    } else {
        weights_add(
            entries_sum(s.drop_last()),
            Map::<EdgeLayerID, u64>::empty().insert(s.last().0, s.last().1),
        )
    }
}

impl Clone for MultiDistance {
    fn clone(&self) -> (r: Self)
        ensures
            r@ == self@,
            canonical(r@),
    {
        proof {
            use_type_invariant(self);
            lemma_entries_model(self.total@);
        }
        let total = copy_entries(&self.total);
        MultiDistance { total }
    }
}

impl Default for MultiDistance {
    fn default() -> (r: Self)
        ensures
            r@ == weights_zero(),
            canonical(r@),
    {
        MultiDistance::new()
    }
}

} // verus!
