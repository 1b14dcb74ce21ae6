use vstd::prelude::*;

verus! {

/// Typed failures of the core; all are recoverable by the caller.
#[derive(Debug, Clone, Copy, PartialEq, Eq, Structural)]
pub enum ArbError {
    /// Every endpoint is throttled or unhealthy.
    NoEndpointAvailable,
    /// A reserve update named a pool that the graph does not hold.
    PoolNotFound,
    /// A route was asked for a token that no pool touches.
    TokenNotInGraph,
    /// Both tokens are known but no path joins them.
    NoRouteFound,
}

} // verus!
