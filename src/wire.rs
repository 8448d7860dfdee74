use vstd::prelude::*;
use std::cmp::Ordering;

verus! {

/// A tracking marker: a prime found earlier, and the next multiple of it
/// that the sieve has still to strike out.
#[derive(Debug, Clone, Copy, PartialEq, Eq, Structural)]
pub struct Wire {
    /// The next multiple of `prm` to be eliminated.
    pub val: u64,
    /// The prime this marker tracks, and the step by which `val` advances.
    pub prm: u64,
}

/// The order of two integers, as `u64::cmp` gives it.
pub open spec fn order_of(a: u64, b: u64) -> Ordering {
    if a < b {
        Ordering::Less
    } else if a == b {
        Ordering::Equal
    } else {
        Ordering::Greater
    }
}

/// Markers are ordered by reverse value: the marker with the lower `val`
/// is the greater one, whatever the primes, so that the greatest marker is
/// the one to inspect next.
impl PartialOrd for Wire {
    fn partial_cmp(&self, other: &Self) -> (r: Option<Ordering>)
        ensures
            r == Some(order_of(other.val, self.val)),
    {
        if other.val < self.val {
            Some(Ordering::Less)
        } else if other.val == self.val {
            Some(Ordering::Equal)
        } else {
            Some(Ordering::Greater)
        }
    }
}

impl vstd::std_specs::cmp::PartialOrdSpecImpl for Wire {
    open spec fn obeys_partial_cmp_spec() -> bool {
        true
    }

    open spec fn partial_cmp_spec(&self, other: &Wire) -> Option<Ordering> {
        Some(order_of(other.val, self.val))
    }
}

} // verus!
