//! The order of message ids: by priority, then the older id is the greater,
//! so that the greatest id is the next to forward.
use crate::store::model::comes_after;
use crate::store::uuid::{made_before, same_msg, Uuid};
use std::cmp::Ordering;
use vstd::prelude::*;

verus! {

/// How `a` compares with `b`: a higher priority is greater; within a priority,
/// the older id is greater; ids that name the same message are equal.
pub open spec fn uuid_order(a: Uuid, b: Uuid) -> Ordering {
    if a.priority > b.priority {
        Ordering::Greater
    } else if a.priority < b.priority {
        Ordering::Less
    } else if a.timestamp < b.timestamp {
        Ordering::Greater
    } else if a.timestamp > b.timestamp {
        Ordering::Less
    } else if a.sequence < b.sequence {
        Ordering::Greater
    } else if a.sequence > b.sequence {
        Ordering::Less
    } else {
        Ordering::Equal
    }
}

impl Uuid {
    /// Compares two ids (see `uuid_order`).
    pub fn cmp(&self, other: &Uuid) -> (r: Ordering)
        ensures
            r == uuid_order(*self, *other),
    {
        if self.priority > other.priority {
            Ordering::Greater
        } else if self.priority < other.priority {
            Ordering::Less
        } else if self.timestamp < other.timestamp {
            Ordering::Greater
        } else if self.timestamp > other.timestamp {
            Ordering::Less
        } else if self.sequence < other.sequence {
            Ordering::Greater
        } else if self.sequence > other.sequence {
            Ordering::Less
        } else {
            Ordering::Equal
        }
    }
}

impl PartialOrd for Uuid {
    /// Compares two ids as `cmp` does; ids always compare.
    fn partial_cmp(&self, other: &Uuid) -> (r: Option<Ordering>) {
        Some(self.cmp(other))
    }
}

impl vstd::std_specs::cmp::PartialOrdSpecImpl for Uuid {
    open spec fn obeys_partial_cmp_spec() -> bool {
        true
    }

    open spec fn partial_cmp_spec(&self, other: &Uuid) -> Option<Ordering> {
        Some(uuid_order(*self, *other))
    }
}

/// The order of ids agrees with the store's rules: equal ids name the same
/// message; a lesser id comes later in forwarding order; within a priority the
/// greater id was made first; and the order is antisymmetric.
pub proof fn law_order_matches_forwarding(a: Uuid, b: Uuid)
    ensures
        (uuid_order(a, b) == Ordering::Equal) == same_msg(a, b),
        (uuid_order(a, b) == Ordering::Less) == comes_after(a, b),
        a.priority == b.priority ==> ((uuid_order(a, b) == Ordering::Greater) == made_before(a, b)),
        (uuid_order(a, b) == Ordering::Less) == (uuid_order(b, a) == Ordering::Greater),
{
}

} // verus!
