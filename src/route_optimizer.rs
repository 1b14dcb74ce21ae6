use vstd::prelude::*;

use crate::pool_graph::{reserves_for, resolve_reserves, PoolEdge, BPS_DENOMINATOR};
use crate::token::Token;

verus! {

/// What is left of `amount` once a fee of `fee_bps` basis points is taken.
pub open spec fn after_fee(amount: nat, fee_bps: nat) -> nat {
    (amount * (10000 - fee_bps) / 10000) as nat
}

/// Constant-product output for `x` entering a pool with reserves
/// `reserve_in`, `reserve_out`.
pub open spec fn swap_out(x: nat, reserve_in: nat, reserve_out: nat) -> nat {
    (x * reserve_out / (reserve_in + x)) as nat
}

/// Output of one hop: zero where either reserve is empty.
pub open spec fn hop_output(hop: (Token, PoolEdge), amount: nat) -> nat {
    let (rin, rout) = reserves_for(hop.0, hop.1);
    if rin == 0 || rout == 0 {
        0
    } else {
        swap_out(after_fee(amount, hop.1.fee_bps as nat), rin as nat, rout as nat)
    }
}

/// Output of a whole route; a hop over an empty pool ends it with zero.
pub open spec fn simulate(route: Seq<(Token, PoolEdge)>, amount: nat) -> nat
    decreases route.len(),
{
    if route.len() == 0 {
        amount
    } else {
        let (rin, rout) = reserves_for(route[0].0, route[0].1);
        if rin == 0 || rout == 0 {
            0
        } else {
            simulate(route.drop_first(), hop_output(route[0], amount))
        }
    }
}

/// Every hop's fee is at most the whole amount.
pub open spec fn fees_ok(route: Seq<(Token, PoolEdge)>) -> bool {
    forall|i: int| 0 <= i < route.len() ==> (#[trigger] route[i]).1.fee_bps <= 10000
}

proof fn lemma_after_fee_bounds(a: nat, f: nat)
    requires
        f <= 10000,
    ensures
        after_fee(a, f) <= a,
{
    assert(a * (10000 - f) <= a * 10000) by (nonlinear_arith)
        requires
            f <= 10000,
    ;
    assert(a * (10000 - f) / 10000 <= a * 10000 / 10000) by (nonlinear_arith)
        requires
            a * (10000 - f) <= a * 10000,
    ;
    assert(a * 10000 / 10000 == a) by (nonlinear_arith);
}

proof fn lemma_swap_out_bound(x: nat, rin: nat, rout: nat)
    requires
        rin > 0,
    ensures
        swap_out(x, rin, rout) <= rout,
{
    assert(x * rout <= rout * (rin + x)) by (nonlinear_arith)
        requires
            rin > 0,
    ;
    assert(x * rout / (rin + x) <= rout) by (nonlinear_arith)
        requires
            x * rout <= rout * (rin + x),
            rin + x > 0,
    ;
}

proof fn lemma_after_fee_mono(a1: nat, a2: nat, f: nat)
    requires
        a1 <= a2,
        f <= 10000,
    ensures
        after_fee(a1, f) <= after_fee(a2, f),
{
    assert(a1 * (10000 - f) <= a2 * (10000 - f)) by (nonlinear_arith)
        requires
            a1 <= a2,
            f <= 10000,
    ;
    assert(a1 * (10000 - f) / 10000 <= a2 * (10000 - f) / 10000) by (nonlinear_arith)
        requires
            a1 * (10000 - f) <= a2 * (10000 - f),
    ;
}

proof fn lemma_swap_out_mono(x1: nat, x2: nat, rin: nat, rout: nat)
    requires
        x1 <= x2,
        rin > 0,
    ensures
        swap_out(x1, rin, rout) <= swap_out(x2, rin, rout),
{
    let q1 = x1 * rout / (rin + x1);
    lemma_swap_out_bound(x1, rin, rout);
    assert(q1 * (rin + x1) <= x1 * rout) by (nonlinear_arith)
        requires
            q1 == x1 * rout / (rin + x1),
            rin + x1 > 0,
    ;
    assert(q1 * (rin + x2) <= x2 * rout) by (nonlinear_arith)
        requires
            q1 * (rin + x1) <= x1 * rout,
            q1 <= rout,
            x1 <= x2,
    ;
    assert(q1 <= x2 * rout / (rin + x2)) by (nonlinear_arith)
        requires
            q1 * (rin + x2) <= x2 * rout,
            rin + x2 > 0,
            q1 >= 0,
    ;
}

proof fn lemma_simulate_zero(route: Seq<(Token, PoolEdge)>)
    ensures
        simulate(route, 0) == 0,
    decreases route.len(),
{
    if route.len() > 0 {
        let (rin, rout) = reserves_for(route[0].0, route[0].1);
        if rin != 0 && rout != 0 {
            assert(0 * (10000 - route[0].1.fee_bps as nat) == 0) by (nonlinear_arith);
            assert(after_fee(0, route[0].1.fee_bps as nat) == 0);
            assert(0 * (rout as nat) == 0) by (nonlinear_arith);
            assert(swap_out(0, rin as nat, rout as nat) == 0);
            assert(hop_output(route[0], 0) == 0);
            lemma_simulate_zero(route.drop_first());
        }
    }
}

/// A route with an empty reserve at some hop yields nothing.
proof fn lemma_simulate_empty_pool(route: Seq<(Token, PoolEdge)>, a: nat, i: int)
    requires
        0 <= i < route.len(),
        reserves_for(route[i].0, route[i].1).0 == 0 || reserves_for(route[i].0, route[i].1).1 == 0,
    ensures
        simulate(route, a) == 0,
    decreases route.len(),
{
    let (rin, rout) = reserves_for(route[0].0, route[0].1);
    if i > 0 && rin != 0 && rout != 0 {
        let rest = route.drop_first();
        assert(rest[i - 1] == route[i]);
        lemma_simulate_empty_pool(rest, hop_output(route[0], a), i - 1);
    }
}

/// For fixed pools and fees, a larger input never yields a smaller output;
/// no input yields nothing, and neither does a route with an empty reserve
/// at any hop.
pub proof fn lemma_simulate_monotonic(route: Seq<(Token, PoolEdge)>, a1: nat, a2: nat)
    requires
        fees_ok(route),
        a1 <= a2,
    ensures
        simulate(route, a1) <= simulate(route, a2),
        simulate(route, 0) == 0,
        forall|i: int|
            0 <= i < route.len() && (reserves_for(route[i].0, route[i].1).0 == 0 || reserves_for(
                route[i].0,
                route[i].1,
            ).1 == 0) ==> simulate(route, a2) == 0 && simulate(route, a1) == 0,
    decreases route.len(),
{
    lemma_simulate_zero(route);
    assert forall|i: int|
        0 <= i < route.len() && (reserves_for(route[i].0, route[i].1).0 == 0 || reserves_for(
            route[i].0,
            route[i].1,
        ).1 == 0) implies simulate(route, a2) == 0 && simulate(route, a1) == 0 by {
        lemma_simulate_empty_pool(route, a1, i);
        lemma_simulate_empty_pool(route, a2, i);
    }
    if route.len() > 0 {
        let (rin, rout) = reserves_for(route[0].0, route[0].1);
        if rin != 0 && rout != 0 {
            let f = route[0].1.fee_bps as nat;
            assert(f <= 10000);
            lemma_after_fee_mono(a1, a2, f);
            lemma_swap_out_mono(after_fee(a1, f), after_fee(a2, f), rin as nat, rout as nat);
            let rest = route.drop_first();
            assert forall|i: int| 0 <= i < rest.len() implies (#[trigger] rest[i]).1.fee_bps
                <= 10000 by {
                assert(rest[i] == route[i + 1]);
            }
            lemma_simulate_monotonic(rest, hop_output(route[0], a1), hop_output(route[0], a2));
        }
    }
}

/// Simulates trades along routes and ranks them.
pub struct RouteOptimizer {}

impl RouteOptimizer {
    pub fn new() -> (r: RouteOptimizer) {
        RouteOptimizer {  }
    }

    /// Amount that comes out of `route` for `amount_in`, hop by hop with
    /// the constant-product formula after the fee, all products taken in
    /// 128 bits.
    pub fn calculate_output_amount(&self, route: &Vec<(Token, PoolEdge)>, amount_in: u64) -> (r:
        u64)
        requires
            fees_ok(route@),
        ensures
            r == simulate(route@, amount_in as nat),
            forall|i: int|
                0 <= i < route@.len() && (reserves_for(route@[i].0, route@[i].1).0 == 0
                    || reserves_for(route@[i].0, route@[i].1).1 == 0) ==> r == 0,
    {
        proof {
            assert forall|i: int|
                0 <= i < route@.len() && (reserves_for(route@[i].0, route@[i].1).0 == 0
                    || reserves_for(route@[i].0, route@[i].1).1 == 0) implies simulate(
                route@,
                amount_in as nat,
            ) == 0 by {
                lemma_simulate_empty_pool(route@, amount_in as nat, i);
            }
        }
        let mut current: u64 = amount_in;
        let mut i: usize = 0;
        proof {
            assert(route@.subrange(0, route@.len() as int) =~= route@);
        }
        while i < route.len()
            invariant
                i <= route.len(),
                fees_ok(route@),
                simulate(route@, amount_in as nat) == simulate(
                    route@.subrange(i as int, route@.len() as int),
                    current as nat,
                ),
            decreases route.len() - i,
        {
            let ghost rest = route@.subrange(i as int, route@.len() as int);
            let (from_token, pool) = &route[i];
            let (reserve_in, reserve_out) = resolve_reserves(from_token, pool);
            assert(rest[0] == route@[i as int]);
            if reserve_in == 0 || reserve_out == 0 {
                return 0;
            }
            assert(pool.fee_bps <= 10000) by {
                assert(route@[i as int].1.fee_bps <= 10000);
            }
            assert((current as u128) * ((BPS_DENOMINATOR as u128) - (pool.fee_bps as u128))
                <= 0xffff_ffff_ffff_ffffu128 * 10000u128) by (nonlinear_arith)
                requires
                    current <= 0xffff_ffff_ffff_ffffu64,
                    pool.fee_bps <= 10000,
                    BPS_DENOMINATOR == 10000,
            ;
            let amount_after_fee: u128 = (current as u128) * ((BPS_DENOMINATOR as u128) - (
            pool.fee_bps as u128)) / (BPS_DENOMINATOR as u128);
            proof {
                lemma_after_fee_bounds(current as nat, pool.fee_bps as nat);
                assert(amount_after_fee == after_fee(current as nat, pool.fee_bps as nat));
                lemma_swap_out_bound(amount_after_fee as nat, reserve_in as nat, reserve_out as nat);
                assert(amount_after_fee * (reserve_out as u128) <= 0xffff_ffff_ffff_ffffu128
                    * 0xffff_ffff_ffff_ffffu128) by (nonlinear_arith)
                    requires
                        amount_after_fee <= 0xffff_ffff_ffff_ffffu128,
                        reserve_out <= 0xffff_ffff_ffff_ffffu64,
                ;
            }
            let numerator: u128 = amount_after_fee * (reserve_out as u128);
            let denominator: u128 = (reserve_in as u128) + amount_after_fee;
            let out: u128 = numerator / denominator;
            proof {
                assert(rest.drop_first() =~= route@.subrange(i + 1, route@.len() as int));
            }
            current = out as u64;
            i = i + 1;
        }
        proof {
            assert(route@.subrange(i as int, route@.len() as int).len() == 0);
        }
        current
    }

    /// Index and output of the route that yields the most for `amount_in`;
    /// the first wins a tie. None where no route yields anything.
    pub fn find_best_route(&self, routes: Vec<Vec<(Token, PoolEdge)>>, amount_in: u64) -> (r:
        Option<(usize, u64)>)
        requires
            forall|i: int| 0 <= i < routes.len() ==> fees_ok(#[trigger] routes[i]@),
        ensures
            match r {
                None => forall|i: int|
                    0 <= i < routes.len() ==> simulate(#[trigger] routes[i]@, amount_in as nat)
                        == 0,
                Some((b, out)) => {
                    &&& b < routes.len()
                    &&& out > 0
                    &&& out == simulate(routes[b as int]@, amount_in as nat)
                    &&& forall|i: int|
                        0 <= i < b ==> simulate(#[trigger] routes[i]@, amount_in as nat) < out
                    &&& forall|i: int|
                        0 <= i < routes.len() ==> simulate(#[trigger] routes[i]@, amount_in as nat)
                            <= out
                },
            },
    {
        let mut best: Option<usize> = None;
        let mut max_output: u64 = 0;
        let mut i: usize = 0;
        while i < routes.len()
            invariant
                i <= routes.len(),
                forall|k: int| 0 <= k < routes.len() ==> fees_ok(#[trigger] routes[k]@),
                match best {
                    None => max_output == 0,
                    Some(b) => {
                        &&& b < i
                        &&& max_output > 0
                        &&& max_output == simulate(routes[b as int]@, amount_in as nat)
                        &&& forall|k: int|
                            0 <= k < b ==> simulate(#[trigger] routes[k]@, amount_in as nat)
                                < max_output
                    },
                },
                forall|k: int|
                    0 <= k < i ==> simulate(#[trigger] routes[k]@, amount_in as nat) <= max_output,
            decreases routes.len() - i,
        {
            let output = self.calculate_output_amount(&routes[i], amount_in);
            if output > max_output {
                max_output = output;
                best = Some(i);
            }
            i = i + 1;
        }
        match best {
            Some(b) => Some((b, max_output)),
            None => None,
        }
    }
}

} // verus!
