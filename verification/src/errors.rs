use vstd::prelude::*;

verus! {

/// The failure kinds a dispatch operation can report.
///
/// An unreachable target or an empty candidate set is a normal outcome and
/// is reported through `Option` results, never through this type.
#[derive(Clone, Copy, Debug, PartialEq, Eq, Structural)]
pub enum DispatchError {
    /// A referenced order or vehicle does not exist.
    NotFound,
    /// A record that must be unique already exists.
    Conflict,
    /// An argument violates a stated rule: a negative edge weight, a
    /// dispatcher registered without an area, an order placed on an
    /// unknown node, or an order-status transition outside the linear
    /// pending -> dispatched -> completed lifecycle.
    ValidationFailed,
    /// The durable store failed a read or write, or no further record
    /// identifier can be issued.
    DependencyFailure,
}

} // verus!
