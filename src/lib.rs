//! Core of a cross-venue arbitrage scanner: a failover manager for ledger
//! endpoints and a routing engine over constant-product pools.

pub mod endpoint;
pub mod error;
pub mod pool_graph;
pub mod price;
pub mod route_finder;
pub mod route_optimizer;
pub mod token;
