use vstd::prelude::*;

use crate::error::ArbError;
use crate::pool_graph::{arc_triples, is_walk, route_cost, valid_route, walk_cost, PoolEdge, PoolGraph};
use crate::token::Token;

verus! {

/// Minimum-cost path search over a pool graph that it owns.
pub struct RouteFinder {
    pub graph: PoolGraph,
}

impl RouteFinder {
    pub fn new() -> (r: RouteFinder)
        ensures
            r.graph.wf(),
            r.graph.tokens.len() == 0,
            r.graph.edges.len() == 0,
    {
        RouteFinder { graph: PoolGraph::new() }
    }

    pub fn from_graph(graph: PoolGraph) -> (r: RouteFinder)
        ensures
            r.graph == graph,
    {
        RouteFinder { graph }
    }

    /// Cheapest route from `from` to `to` for a trade of `amount_in`; see
    /// `PoolGraph::find_route`.
    pub fn find_optimal_route(&self, from: &Token, to: &Token, amount_in: u64) -> (r: Result<
        Vec<(Token, PoolEdge)>,
        ArbError,
    >)
        requires
            self.graph.wf(),
        ensures
            r == Err::<Vec<(Token, PoolEdge)>, ArbError>(ArbError::TokenNotInGraph) <==> !(
            self.graph.has_token(*from) && self.graph.has_token(*to)),
            r == Err::<Vec<(Token, PoolEdge)>, ArbError>(ArbError::NoRouteFound) <==> (
            self.graph.has_token(*from) && self.graph.has_token(*to) && !self.graph.connected(
                *from,
                *to,
            )),
            r matches Err(e) ==> e == ArbError::TokenNotInGraph || e == ArbError::NoRouteFound,
            r matches Ok(route) ==> valid_route(self.graph.edges@, route@, *from, *to),
            r matches Ok(route) ==> forall|i: int, j: int|
                0 <= i < j < route@.len() ==> route@[i].0@ != route@[j].0@,
            r matches Ok(route) ==> from@ != to@ ==> forall|i: int|
                0 <= i < route@.len() ==> (#[trigger] route@[i]).0@ != to@,
            r matches Ok(route) ==> from@ != to@ ==> forall|w: Seq<int>|
                #[trigger] is_walk(
                    arc_triples(self.graph.edges@),
                    w,
                    self.graph.index_of(*from),
                    self.graph.index_of(*to),
                ) ==> route_cost(route@, amount_in as nat) <= walk_cost(
                    arc_triples(self.graph.edges@),
                    self.graph.edges@,
                    w,
                    amount_in as nat,
                ),
    {
        self.graph.find_route(from, to, amount_in)
    }
}

} // verus!
