use vstd::prelude::*;

verus! {

/// The failure taxonomy of the dispatch engine.
///
/// Every operation returns a typed result; no failure is fatal and the
/// caller may always retry or re-resolve. An empty resolution ("no vehicle
/// available") is a successful result, never one of these errors.
#[derive(Clone, Copy, Debug, PartialEq, Eq, Structural)]
pub enum DispatchError {
    /// The requested area has no nodes.
    AreaNotFound,
    /// A referenced node does not exist in the graph store.
    NodeNotFound,
    /// No edge connects the given unordered pair of nodes.
    EdgeNotFound,
    /// A referenced vehicle does not exist.
    VehicleNotFound,
    /// A referenced order does not exist.
    OrderNotFound,
    /// The source node of a shortest-path query is absent from the snapshot.
    NodeNotInGraph,
    /// Malformed input, such as a negative edge weight.
    InvalidInput,
    /// The order is not in the state the operation demands.
    InvalidOrderState,
    /// The requested vehicle status change is not an allowed transition.
    InvalidStatusTransition,
    /// Re-validation at dispatch confirmation found the order or the vehicle
    /// already claimed by a concurrent operation.
    ConcurrentModification,
}

} // verus!
