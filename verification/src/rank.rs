//! How tours compare: by cost alone.

use std::cmp::Ordering;
use vstd::prelude::*;

use crate::chromosome::Chromosome;

verus! {

/// Two tours are equal when they cost the same, whatever their routes.
impl PartialEq for Chromosome {
    fn eq(&self, other: &Self) -> (equal: bool) {
        self.cost == other.cost
    }
}

impl vstd::std_specs::cmp::PartialEqSpecImpl for Chromosome {
    open spec fn obeys_eq_spec() -> bool {
        true
    }

    open spec fn eq_spec(&self, other: &Self) -> bool {
        self.cost == other.cost
    }
}

/// Tours are ordered by cost: the cheaper tour is the lesser.
impl PartialOrd for Chromosome {
    fn partial_cmp(&self, other: &Self) -> (order: Option<Ordering>) {
        if self.cost < other.cost {
            Some(Ordering::Less)
        } else if self.cost == other.cost {
            Some(Ordering::Equal)
        } else {
            Some(Ordering::Greater)
        }
    }
}

impl vstd::std_specs::cmp::PartialOrdSpecImpl for Chromosome {
    open spec fn obeys_partial_cmp_spec() -> bool {
        true
    }

    open spec fn partial_cmp_spec(&self, other: &Self) -> Option<Ordering> {
        if self.cost < other.cost {
            Some(Ordering::Less)
        } else if self.cost == other.cost {
            Some(Ordering::Equal)
        } else {
            Some(Ordering::Greater)
        }
    }
}

} // verus!
