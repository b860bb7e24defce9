//! The order of commits as `<`, `<=`, `>` and `>=` see it.

use std::cmp::Ordering;
use vstd::prelude::*;
use vstd::std_specs::cmp::PartialOrdSpecImpl;
use crate::byte_order::Order;
use crate::byte_order::order_of;
use crate::commit::Commit;
use crate::commit::CommitByCommitterTimestamp;
use crate::commit::order_by_time;

verus! {

/// The standard library's name for an outcome of comparing.
pub open spec fn ordering_of(order: Order) -> Ordering {
    match order {
        Order::Less => Ordering::Less,
        Order::Equal => Ordering::Equal,
        Order::Greater => Ordering::Greater,
    }
}

/// The standard library's name for an outcome of comparing.
pub fn to_ordering(order: Order) -> (r: Ordering)
    ensures
        r == ordering_of(order),
{
    match order {
        Order::Less => Ordering::Less,
        Order::Equal => Ordering::Equal,
        Order::Greater => Ordering::Greater,
    }
}

impl PartialOrd for Commit {
    fn partial_cmp(&self, other: &Self) -> (r: Option<Ordering>) {
        Some(to_ordering(self.order(other)))
    }
}

impl PartialOrdSpecImpl for Commit {
    open spec fn obeys_partial_cmp_spec() -> bool {
        true
    }

    open spec fn partial_cmp_spec(&self, other: &Self) -> Option<Ordering> {
        Some(ordering_of(order_of(self.spec_id(), other.spec_id())))
    }
}

impl PartialOrd for CommitByCommitterTimestamp {
    fn partial_cmp(&self, other: &Self) -> (r: Option<Ordering>) {
        Some(to_ordering(self.order(other)))
    }
}

impl PartialOrdSpecImpl for CommitByCommitterTimestamp {
    open spec fn obeys_partial_cmp_spec() -> bool {
        true
    }

    open spec fn partial_cmp_spec(&self, other: &Self) -> Option<Ordering> {
        Some(
            ordering_of(
                order_by_time(
                    self.0.spec_data().committer.timestamp.timestamp.0,
                    self.0.spec_id(),
                    other.0.spec_data().committer.timestamp.timestamp.0,
                    other.0.spec_id(),
                ),
            ),
        )
    }
}

} // verus!
