use vstd::prelude::*;

verus! {

/// The error kinds that catalog, fleet and plan operations return. All
/// failures are explicit result values; a failed call leaves the catalog,
/// fleet and plan it was given unchanged.
#[derive(Clone, Copy, PartialEq, Eq, Structural, Debug)]
pub enum PlanError {
    /// `add_order` was given an id that the catalog already holds.
    DuplicateId,
    /// `add_box` was given an order id that the catalog does not hold.
    UnknownOrder,
    /// A vehicle index outside the plan's vehicle list.
    UnknownVehicle,
    /// A box weight that is not strictly positive.
    InvalidWeight,
    /// A negative vehicle capacity.
    InvalidCapacity,
    /// A position outside the range of a queried sequence.
    IndexOutOfRange,
}

} // verus!
