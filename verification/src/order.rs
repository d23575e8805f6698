//! Equality, the layerwise partial order and `+` on multi-distances.
use crate::multidistance::MultiDistance;
use crate::weights::{canonical, lemma_le_antisymmetric, weights_add, weights_le, Weights};
use core::cmp::Ordering;
use core::ops::Add;
use vstd::prelude::*;
use vstd::std_specs::cmp::{PartialEqSpecImpl, PartialOrdSpecImpl};
use vstd::std_specs::ops::AddSpecImpl;

verus! {

/// How two weight vectors compare: `Less`, `Equal` or `Greater` where one is
/// layerwise below the other, and `None` where they are incomparable.
pub open spec fn weights_order(a: Weights, b: Weights) -> Option<Ordering> {
    if weights_le(a, b) && weights_le(b, a) {
        Some(Ordering::Equal)
    } else if weights_le(a, b) {
        Some(Ordering::Less)
    } else if weights_le(b, a) {
        Some(Ordering::Greater)
    } else {
        None
    }
}

impl PartialEq for MultiDistance {
    fn eq(&self, other: &Self) -> (r: bool) {
        self.model_is_canonical();
        other.model_is_canonical();
        let r = self.le(other) && other.le(self);
        proof {
            if r {
                lemma_le_antisymmetric(self@, other@);
            }
        }
        r
    }
}

impl PartialEqSpecImpl for MultiDistance {
    open spec fn obeys_eq_spec() -> bool {
        true
    }

    open spec fn eq_spec(&self, other: &Self) -> bool {
        self@ == other@
    }
}

impl Eq for MultiDistance {

}

impl PartialOrd for MultiDistance {
    fn partial_cmp(&self, other: &Self) -> (r: Option<Ordering>) {
        let below = self.le(other);
        let above = other.le(self);
        if below && above {
            Some(Ordering::Equal)
        } else if below {
            Some(Ordering::Less)
        } else if above {
            Some(Ordering::Greater)
        } else {
            None
        }
    }
}

impl PartialOrdSpecImpl for MultiDistance {
    open spec fn obeys_partial_cmp_spec() -> bool {
        true
    }

    open spec fn partial_cmp_spec(&self, other: &Self) -> Option<Ordering> {
        weights_order(self@, other@)
    }
}

impl Add for MultiDistance {
    type Output = MultiDistance;

    fn add(self, rhs: MultiDistance) -> (r: MultiDistance)
        ensures
            canonical(r@),
            r@ == weights_add(self@, rhs@),
    {
        self.plus(&rhs)
    }
}

impl AddSpecImpl for MultiDistance {
    open spec fn obeys_add_spec() -> bool {
        false
    }

    open spec fn add_req(self, rhs: MultiDistance) -> bool {
        true
    }

    open spec fn add_spec(self, rhs: MultiDistance) -> MultiDistance {
        self
    }
}

} // verus!
