use vstd::prelude::*;

verus! {

/// The failure taxonomy of the routing core.
///
/// `NoPathFound`: the destination is unreachable from the source, or no
/// road segment connects two consecutive tour waypoints under any tried
/// candidate pair. `InvalidInput`: a malformed or undersized input, such as
/// a waypoint list with fewer than two entries. `CapacityExceeded`: a
/// waypoint count beyond the Held-Karp practical bound.
#[derive(Clone, Copy, Debug, PartialEq, Eq, Structural)]
pub enum RouteError {
    NoPathFound,
    InvalidInput,
    CapacityExceeded,
}

impl RouteError {
    /// A human-readable description of the error.
    pub fn message(&self) -> (r: &'static str)
        ensures
            self is NoPathFound ==> r@ == "No path found"@,
            self is InvalidInput ==> r@ == "Invalid input"@,
            self is CapacityExceeded ==> r@ == "Capacity exceeded"@,
    {
        match self {
            RouteError::NoPathFound => "No path found",
            RouteError::InvalidInput => "Invalid input",
            RouteError::CapacityExceeded => "Capacity exceeded",
        }
    }
}

} // verus!
