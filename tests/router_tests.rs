use flash_arb::error::ArbError;
use flash_arb::pool_graph::{edge_weight, DexType, PoolEdge, PoolGraph, IMPASSABLE};
use flash_arb::price::RaydiumClient;
use flash_arb::route_finder::RouteFinder;
use flash_arb::route_optimizer::RouteOptimizer;
use flash_arb::token::Token;

fn tok(b: u8) -> Token {
    Token::new([b; 32])
}

fn pool(id: u8, a: Token, b: Token, ra: u64, rb: u64, fee: u16) -> PoolEdge {
    PoolEdge {
        pool_address: tok(id),
        dex_type: DexType::RaydiumV4,
        token_a: a,
        token_b: b,
        reserve_a: ra,
        reserve_b: rb,
        fee_bps: fee,
    }
}

#[test]
fn test_add_pool() {
    let mut graph = PoolGraph::new();
    let sol = tok(1);
    let usdc = tok(2);
    graph.add_pool(pool(9, sol, usdc, 1_000_000, 245_000_000, 30));
    assert_eq!(graph.pool_count(), 1);
    assert_eq!(graph.edges.len(), 2);
    assert_eq!(graph.tokens.len(), 2);
}

#[test]
fn routes_both_ways_over_one_pool() {
    let (a, b) = (tok(1), tok(2));
    let mut g = PoolGraph::new();
    g.add_pool(pool(9, a, b, 1_000_000_000, 150_000_000, 30));
    let ab = g.find_route(&a, &b, 1_000).unwrap();
    let ba = g.find_route(&b, &a, 1_000).unwrap();
    assert_eq!(ab.len(), 1);
    assert_eq!(ba.len(), 1);
    assert!(ab[0].0.same(&a) && ab[0].1.pool_address.same(&tok(9)));
    assert!(ba[0].0.same(&b) && ba[0].1.pool_address.same(&tok(9)));
}

#[test]
fn route_errors() {
    let (a, b, c, d) = (tok(1), tok(2), tok(3), tok(4));
    let mut g = PoolGraph::new();
    g.add_pool(pool(9, a, b, 10, 10, 30));
    g.add_pool(pool(8, c, d, 10, 10, 30));
    assert_eq!(g.find_route(&a, &tok(7), 5).unwrap_err(), ArbError::TokenNotInGraph);
    assert_eq!(g.find_route(&tok(7), &a, 5).unwrap_err(), ArbError::TokenNotInGraph);
    assert_eq!(g.find_route(&a, &c, 5).unwrap_err(), ArbError::NoRouteFound);
}

#[test]
fn update_reserves_both_directions() {
    let (a, b) = (tok(1), tok(2));
    let mut g = PoolGraph::new();
    g.add_pool(pool(9, a, b, 10, 20, 30));
    assert_eq!(g.update_pool_liquidity(&tok(9), 111, 222), Ok(()));
    for e in &g.edges {
        assert_eq!((e.pool.reserve_a, e.pool.reserve_b), (111, 222));
    }
    assert_eq!(g.update_pool_liquidity(&tok(5), 1, 2), Err(ArbError::PoolNotFound));
}

#[test]
fn weight_values() {
    let (a, b) = (tok(1), tok(2));
    let p = pool(9, a, b, 1_000_000_000, 0, 30);
    assert_eq!(edge_weight(&p, &a, 1_000_000), 3_999_000_999);
    assert_eq!(edge_weight(&p, &a, 0), 0);
    assert_eq!(edge_weight(&p, &b, 1_000_000), IMPASSABLE);
}

#[test]
fn cheaper_pool_is_chosen() {
    let (a, b) = (tok(1), tok(2));
    let mut g = PoolGraph::new();
    g.add_pool(pool(9, a, b, 1_000, 1_000, 100));
    g.add_pool(pool(8, a, b, 1_000_000, 1_000_000, 5));
    let r = g.find_route(&a, &b, 500).unwrap();
    assert!(r[0].1.pool_address.same(&tok(8)));
}

#[test]
fn simulate_zero_cases_and_monotonic() {
    let (a, b) = (tok(1), tok(2));
    let opt = RouteOptimizer::new();
    let route = vec![(a, pool(9, a, b, 1_000_000, 1_000_000, 30))];
    assert_eq!(opt.calculate_output_amount(&route, 0), 0);
    assert_eq!(opt.calculate_output_amount(&route, 1000), 996);
    assert_eq!(opt.calculate_output_amount(&route, 2000), 1990);
    let mut last = 0;
    for x in (0..100_000u64).step_by(997) {
        let out = opt.calculate_output_amount(&route, x);
        assert!(out >= last);
        last = out;
    }
    let empty_in = vec![(a, pool(9, a, b, 0, 1_000_000, 30))];
    let empty_out = vec![(a, pool(9, a, b, 1_000_000, 0, 30))];
    assert_eq!(opt.calculate_output_amount(&empty_in, 5000), 0);
    assert_eq!(opt.calculate_output_amount(&empty_out, 5000), 0);
}

#[test]
fn best_route_picks_larger_output() {
    let (a, b) = (tok(1), tok(2));
    let opt = RouteOptimizer::new();
    let r100 = vec![(a, pool(9, a, b, 100, 200, 0))];
    let r120 = vec![(a, pool(8, a, b, 100, 240, 0))];
    assert_eq!(opt.calculate_output_amount(&r100, 100), 100);
    assert_eq!(opt.calculate_output_amount(&r120, 100), 120);
    assert_eq!(opt.find_best_route(vec![r100.clone(), r120.clone()], 100), Some((1, 120)));
    assert_eq!(opt.find_best_route(vec![r120.clone(), r120.clone()], 100), Some((0, 120)));
    assert_eq!(opt.find_best_route(vec![], 100), None);
    let dead = vec![(a, pool(7, a, b, 0, 240, 0))];
    assert_eq!(opt.find_best_route(vec![dead], 100), None);
}

#[test]
fn end_to_end_two_hops() {
    let (sol, usdc, usdt) = (tok(1), tok(2), tok(3));
    let mut finder = RouteFinder::new();
    finder.graph.add_pool(pool(9, sol, usdc, 1_000_000_000, 150_000_000, 30));
    finder.graph.add_pool(pool(8, usdc, usdt, 1_000_000_000, 1_000_000_000, 1));
    let route = finder.find_optimal_route(&sol, &usdt, 10_000_000).unwrap();
    assert_eq!(route.len(), 2);
    assert!(route[0].0.same(&sol) && route[1].0.same(&usdc));
    let opt = RouteOptimizer::new();
    let first = opt.calculate_output_amount(&route[..1].to_vec(), 10_000_000);
    assert_eq!(first, 1_480_737);
    let out = opt.calculate_output_amount(&route, 10_000_000);
    assert_eq!(out, 1_478_399);
    assert_eq!(opt.calculate_output_amount(&route, 10_000_000), out);
}

#[test]
fn token_account_amount_reads_le() {
    let mut data = vec![0u8; 72];
    data[64] = 1;
    data[65] = 2;
    data[71] = 1;
    assert_eq!(RaydiumClient::token_account_amount(&data), 0x0100_0000_0000_0201);
    assert_eq!(RaydiumClient::token_account_amount(&data[..71]), 0);
}

#[test]
fn cheaper_two_hop_path_beats_shallow_direct_pool() {
    let (a, b, c) = (tok(1), tok(2), tok(3));
    let mut g = PoolGraph::new();
    g.add_pool(pool(9, a, b, 1_000, 1_000, 30));
    g.add_pool(pool(8, a, c, 1_000_000_000, 1_000_000_000, 5));
    g.add_pool(pool(7, c, b, 1_000_000_000, 1_000_000_000, 5));
    let r = g.find_route(&a, &b, 500).unwrap();
    assert_eq!(r.len(), 2);
    assert!(r[0].0.same(&a) && r[0].1.pool_address.same(&tok(8)));
    assert!(r[1].0.same(&c) && r[1].1.pool_address.same(&tok(7)));
}

#[test]
fn same_token_gives_round_trip() {
    let (a, b, c) = (tok(1), tok(2), tok(3));
    let mut g = PoolGraph::new();
    g.add_pool(pool(9, a, b, 1_000_000, 1_000_000, 30));
    g.add_pool(pool(8, b, c, 1_000_000, 1_000_000, 30));
    let r = g.find_route(&a, &a, 1_000).unwrap();
    assert_eq!(r.len(), 2);
    assert!(r[0].0.same(&a) && r[0].1.pool_address.same(&tok(9)));
    assert!(r[1].0.same(&b) && r[1].1.pool_address.same(&tok(9)));
    let r = g.find_route(&c, &c, 0).unwrap();
    assert_eq!(r.len(), 2);
    assert!(r[0].0.same(&c) && r[1].0.same(&b));
}

#[test]
fn zero_amount_route_is_one_hop() {
    let (a, b) = (tok(1), tok(2));
    let mut g = PoolGraph::new();
    g.add_pool(pool(9, a, b, 1_000_000_000, 150_000_000, 30));
    assert_eq!(g.find_route(&a, &b, 0).unwrap().len(), 1);
    assert_eq!(g.find_route(&b, &a, 0).unwrap().len(), 1);
}
