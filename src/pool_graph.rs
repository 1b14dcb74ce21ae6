use vstd::prelude::*;

use crate::error::ArbError;
use crate::token::Token;
use petgraph::graph::Graph;

verus! {

/// Fees are given in basis points out of this denominator.
pub const BPS_DENOMINATOR: u64 = 10000;

/// Venue that operates a pool.
#[derive(Debug, Clone, Copy, PartialEq, Eq, Structural)]
pub enum DexType {
    RaydiumV4,
    RaydiumCPMM,
    RaydiumCLMM,
    OrcaWhirlpool,
    MeteoraDLMM,
}

/// A pool as seen from one of its directed edges: both reserves are kept
/// in the pool's own A/B order.
#[derive(Debug, Clone, Copy)]
pub struct PoolEdge {
    pub pool_address: Token,
    pub dex_type: DexType,
    pub token_a: Token,
    pub token_b: Token,
    pub reserve_a: u64,
    pub reserve_b: u64,
    pub fee_bps: u16,
}

/// Reserves (in, out) of `p` for a trade that enters with `source`.
pub open spec fn reserves_for(source: Token, p: PoolEdge) -> (u64, u64) {
    if source@ == p.token_a@ {
        (p.reserve_a, p.reserve_b)
    } else {
        (p.reserve_b, p.reserve_a)
    }
}

/// Reserves (in, out) of `p` for a trade that enters with `source`.
pub fn resolve_reserves(source: &Token, p: &PoolEdge) -> (r: (u64, u64))
    ensures
        r == reserves_for(*source, *p),
{
    if source.same(&p.token_a) {
        (p.reserve_a, p.reserve_b)
    } else {
        (p.reserve_b, p.reserve_a)
    }
}

/// Scale of edge weights: a weight of one whole unit is this integer.
pub const WEIGHT_SCALE: u64 = 1_000_000_000_000;

/// Weight of one basis point of fee.
pub const WEIGHT_PER_BPS: u64 = 100_000_000;

/// Weight of an edge whose input reserve is empty.
pub const IMPASSABLE: u64 = 0xffff_ffff_ffff_ffff;

/// The token that leaves `p` when `source` enters it.
pub open spec fn other_token(source: Token, p: PoolEdge) -> Token {
    if source@ == p.token_a@ {
        p.token_b
    } else {
        p.token_a
    }
}

/// Cost of trading `amount` through `p` from `source`: price impact
/// `amount / (reserve_in + amount)` plus the fee, both scaled by
/// `WEIGHT_SCALE` and rounded down.
pub open spec fn weight_of(p: PoolEdge, source: Token, amount: nat) -> nat {
    let rin = reserves_for(source, p).0;
    if rin == 0 {
        IMPASSABLE as nat
    } else if amount == 0 {
        0
    } else {
        (amount * WEIGHT_SCALE / (rin + amount) + p.fee_bps * WEIGHT_PER_BPS) as nat
    }
}

/// Weight of the edge of `p` that `source` enters, for a trade of `amount_in`.
pub fn edge_weight(p: &PoolEdge, source: &Token, amount_in: u64) -> (r: u64)
    requires
        p.fee_bps <= 10000,
    ensures
        r == weight_of(*p, *source, amount_in as nat),
{
    let (reserve_in, _) = resolve_reserves(source, p);
    if reserve_in == 0 {
        return IMPASSABLE;
    }
    if amount_in == 0 {
        return 0;
    }
    let scaled: u128 = (amount_in as u128) * (WEIGHT_SCALE as u128);
    let impact: u128 = scaled / ((reserve_in as u128) + (amount_in as u128));
    proof {
        let a = amount_in as int;
        let rin = reserve_in as int;
        assert(impact as int <= WEIGHT_SCALE) by (nonlinear_arith)
            requires
                impact as int == (a * 1_000_000_000_000) / (rin + a),
                rin > 0,
                a > 0,
        ;
    }
    (impact as u64) + (p.fee_bps as u64) * WEIGHT_PER_BPS
}

/// One directed edge: the pool entered from `source`, between graph nodes
/// `from` and `to`.
#[derive(Debug, Clone, Copy)]
pub struct DirectedEdge {
    pub from: usize,
    pub to: usize,
    pub source: Token,
    pub pool: PoolEdge,
}

#[verifier::external_type_specification]
#[verifier::external_body]
#[verifier::reject_recursive_types(N)]
#[verifier::reject_recursive_types(E)]
#[verifier::reject_recursive_types(Ty)]
#[verifier::reject_recursive_types(Ix)]
pub struct ExGraph<N, E, Ty, Ix>(Graph<N, E, Ty, Ix>);

#[verifier::external_type_specification]
#[verifier::external_body]
pub struct ExDirected(petgraph::Directed);

/// Edges that a petgraph graph holds, in insertion order, as
/// (source node, target node, weight).
pub uninterp spec fn graph_edges(g: Graph<(), usize>) -> Seq<(nat, nat, nat)>;

/// Number of nodes that a petgraph graph holds.
pub uninterp spec fn graph_node_count(g: Graph<(), usize>) -> nat;

/// Relies on petgraph's Graph::new: an empty graph.
#[verifier::external_body]
fn graph_new() -> (g: Graph<(), usize>)
    ensures
        graph_node_count(g) == 0,
        graph_edges(g) == Seq::<(nat, nat, nat)>::empty(),
{
    Graph::new()
}

/// Relies on petgraph's Graph::add_node: the new node's index is the old
/// node count; it panics only when the 32-bit index space is full.
#[verifier::external_body]
fn graph_add_node(g: &mut Graph<(), usize>) -> (r: usize)
    requires
        graph_node_count(*old(g)) < 0xffff_ffffnat,
    ensures
        r == graph_node_count(*old(g)),
        graph_node_count(*final(g)) == graph_node_count(*old(g)) + 1,
        graph_edges(*final(g)) == graph_edges(*old(g)),
{
    g.add_node(()).index()
}

/// Relies on petgraph's Graph::add_edge: appends the edge `a -> b`; it
/// panics only on a missing node or a full 32-bit index space.
#[verifier::external_body]
fn graph_add_edge(g: &mut Graph<(), usize>, a: usize, b: usize, w: usize)
    requires
        a < graph_node_count(*old(g)),
        b < graph_node_count(*old(g)),
        graph_edges(*old(g)).len() < 0xffff_ffffnat,
    ensures
        graph_node_count(*final(g)) == graph_node_count(*old(g)),
        graph_edges(*final(g)) == graph_edges(*old(g)).push((a as nat, b as nat, w as nat)),
{
    g.add_edge(petgraph::graph::NodeIndex::new(a), petgraph::graph::NodeIndex::new(b), w);
}

/// `w` is a walk of edge indices from node `s` to node `t`.
pub open spec fn is_walk(edges: Seq<(nat, nat, nat)>, w: Seq<int>, s: nat, t: nat) -> bool {
    &&& forall|i: int| 0 <= i < w.len() ==> 0 <= #[trigger] w[i] < edges.len()
    &&& w.len() == 0 ==> s == t
    &&& w.len() > 0 ==> {
        &&& edges[w[0]].0 == s
        &&& edges[w[w.len() - 1]].1 == t
        &&& forall|i: int| 0 <= i < w.len() - 1 ==> edges[#[trigger] w[i]].1 == edges[w[i + 1]].0
    }
}

pub open spec fn reachable(edges: Seq<(nat, nat, nat)>, s: nat, t: nat) -> bool {
    exists|w: Seq<int>| is_walk(edges, w, s, t)
}

/// A walk of at least one edge leads from `s` to `t`.
pub open spec fn reachable_by_steps(edges: Seq<(nat, nat, nat)>, s: nat, t: nat) -> bool {
    exists|w: Seq<int>| w.len() > 0 && #[trigger] is_walk(edges, w, s, t)
}

/// `p` is a path of nodes from `s` to `t`, each step along an edge.
pub open spec fn is_node_path(edges: Seq<(nat, nat, nat)>, p: Seq<usize>, s: nat, t: nat) -> bool {
    &&& p.len() >= 1
    &&& p[0] == s
    &&& p[p.len() - 1] == t
    &&& forall|i: int|
        0 <= i < p.len() - 1 ==> exists|k: int|
            0 <= k < edges.len() && edges[k].0 == p[i] && edges[k].1 == #[trigger] p[i + 1]
}

/// Weight of edge `i` of `arcs` for a trade of `amount_in`.
pub fn arc_weight(arcs: &Vec<DirectedEdge>, i: usize, amount_in: u64) -> (r: u64)
    requires
        i < arcs.len(),
        arcs[i as int].pool.fee_bps <= 10000,
    ensures
        r == weight_of(arcs[i as int].pool, arcs[i as int].source, amount_in as nat),
{
    edge_weight(&arcs[i].pool, &arcs[i].source, amount_in)
}

/// Weight of graph edge `k`, whose weight field is a position in `arcs`.
pub open spec fn graph_edge_cost(
    edges: Seq<(nat, nat, nat)>,
    arcs: Seq<DirectedEdge>,
    k: int,
    amount: nat,
) -> nat {
    let a = arcs[edges[k].2 as int];
    weight_of(a.pool, a.source, amount)
}

/// Total weight of the walk `w`.
pub open spec fn walk_cost(
    edges: Seq<(nat, nat, nat)>,
    arcs: Seq<DirectedEdge>,
    w: Seq<int>,
    amount: nat,
) -> nat
    decreases w.len(),
{
    if w.len() == 0 {
        0
    } else {
        walk_cost(edges, arcs, w.drop_last(), amount) + graph_edge_cost(
            edges,
            arcs,
            w[w.len() - 1],
            amount,
        )
    }
}

/// `w` steps along the node path `p`, one edge per step.
pub open spec fn walk_along(edges: Seq<(nat, nat, nat)>, w: Seq<int>, p: Seq<usize>) -> bool {
    &&& w.len() + 1 == p.len()
    &&& forall|i: int|
        0 <= i < w.len() ==> {
            &&& 0 <= #[trigger] w[i] < edges.len()
            &&& edges[w[i]].0 == p[i]
            &&& edges[w[i]].1 == p[i + 1]
        }
}

/// Total weight of the hops of `route` for a trade of `amount`.
pub open spec fn route_cost(route: Seq<(Token, PoolEdge)>, amount: nat) -> nat
    decreases route.len(),
{
    if route.len() == 0 {
        0
    } else {
        route_cost(route.drop_last(), amount) + weight_of(
            route[route.len() - 1].1,
            route[route.len() - 1].0,
            amount,
        )
    }
}

/// Relies on petgraph::algo::astar with a zero estimate (a Dijkstra
/// search), edge costs from `arc_weight`: when the goal is reachable, a
/// node path from `start` to `goal` that repeats no node, and its cost, which is that of a walk
/// along the path and no more than that of any walk to the goal; None when
/// the goal is not reachable.
#[verifier::external_body]
fn graph_shortest_path(
    g: &Graph<(), usize>,
    arcs: &Vec<DirectedEdge>,
    start: usize,
    goal: usize,
    amount_in: u64,
) -> (r: Option<(u128, Vec<usize>)>)
    requires
        start < graph_node_count(*g),
        goal < graph_node_count(*g),
        forall|k: int|
            0 <= k < graph_edges(*g).len() ==> {
                &&& (#[trigger] graph_edges(*g)[k]).2 < arcs.len()
                &&& arcs[graph_edges(*g)[k].2 as int].pool.fee_bps <= 10000
            },
    ensures
        r is None <==> !reachable(graph_edges(*g), start as nat, goal as nat),
        r matches Some((c, p)) ==> is_node_path(graph_edges(*g), p@, start as nat, goal as nat),
        r matches Some((c, p)) ==> p@.no_duplicates(),
        r matches Some((c, p)) ==> exists|w: Seq<int>|
            #[trigger] walk_along(graph_edges(*g), w, p@) && walk_cost(
                graph_edges(*g),
                arcs@,
                w,
                amount_in as nat,
            ) == c,
        r matches Some((c, p)) ==> forall|w: Seq<int>|
            #[trigger] is_walk(graph_edges(*g), w, start as nat, goal as nat) ==> c <= walk_cost(
                graph_edges(*g),
                arcs@,
                w,
                amount_in as nat,
            ),
{
    let goal_index = petgraph::graph::NodeIndex::new(goal);
    petgraph::algo::astar(
        g,
        petgraph::graph::NodeIndex::new(start),
        |n| n == goal_index,
        |e| arc_weight(arcs, *e.weight(), amount_in) as u128,
        |_| 0u128,
    ).map(|(c, p)| (c, p.into_iter().map(|n| n.index()).collect()))
}

/// The edges of `edges` as (from node, to node, position).
pub open spec fn arc_triples(edges: Seq<DirectedEdge>) -> Seq<(nat, nat, nat)> {
    Seq::new(edges.len(), |i: int| (edges[i].from as nat, edges[i].to as nat, i as nat))
}

/// Edge `e` joins the nodes of its source token and of the other token of
/// its pool.
pub open spec fn edge_ok(tokens: Seq<Token>, e: DirectedEdge) -> bool {
    &&& e.from < tokens.len()
    &&& e.to < tokens.len()
    &&& tokens[e.from as int]@ == e.source@
    &&& tokens[e.to as int]@ == other_token(e.source, e.pool)@
    &&& e.pool.fee_bps < 10000
}

/// `e` with the pool's reserves replaced, in the pool's own A/B order.
pub open spec fn with_reserves(e: DirectedEdge, reserve_a: u64, reserve_b: u64) -> DirectedEdge {
    DirectedEdge { pool: PoolEdge { reserve_a, reserve_b, ..e.pool }, ..e }
}

/// A route from `from` to `to` whose hops are edges of `edges` and chain
/// token to token.
pub open spec fn valid_route(
    edges: Seq<DirectedEdge>,
    route: Seq<(Token, PoolEdge)>,
    from: Token,
    to: Token,
) -> bool {
    &&& route.len() >= 1
    &&& route[0].0@ == from@
    &&& other_token(route[route.len() - 1].0, route[route.len() - 1].1)@ == to@
    &&& forall|i: int|
        0 <= i < route.len() - 1 ==> other_token(route[i].0, route[i].1)@ == (#[trigger] route[i
            + 1]).0@
    &&& forall|i: int|
        0 <= i < route.len() ==> exists|k: int|
            0 <= k < edges.len() && edges[k].source == (#[trigger] route[i]).0 && edges[k].pool
                == route[i].1
}

/// Directed graph of tradable pairs: one node per token, two edges per
/// pool (A to B, then B to A).
pub struct PoolGraph {
    pub graph: Graph<(), usize>,
    pub tokens: Vec<Token>,
    pub edges: Vec<DirectedEdge>,
}

impl PoolGraph {
    pub open spec fn wf(&self) -> bool {
        &&& graph_node_count(self.graph) == self.tokens.len()
        &&& graph_edges(self.graph) == arc_triples(self.edges@)
        &&& self.tokens.len() < 0xffff_ffff
        &&& self.edges.len() < 0xffff_ffff
        &&& forall|i: int, j: int|
            0 <= i < j < self.tokens.len() ==> self.tokens[i]@ != self.tokens[j]@
        &&& forall|i: int| 0 <= i < self.edges.len() ==> edge_ok(self.tokens@, #[trigger] self.edges[i])
        &&& self.edges.len() % 2 == 0
        &&& forall|k: int|
            0 <= k < self.edges.len() / 2 ==> {
                let ab = #[trigger] self.edges[2 * k];
                let ba = self.edges[2 * k + 1];
                &&& ab.pool == ba.pool
                &&& ab.source == ab.pool.token_a
                &&& ba.source == ab.pool.token_b
            }
    }

    pub open spec fn has_token(&self, t: Token) -> bool {
        exists|i: int| 0 <= i < self.tokens.len() && self.tokens[i]@ == t@
    }

    /// A walk of at least one edge leads from token `f` to token `t`.
    pub open spec fn connected(&self, f: Token, t: Token) -> bool {
        exists|i: int, j: int|
            0 <= i < self.tokens.len() && 0 <= j < self.tokens.len() && self.tokens[i]@ == f@
                && self.tokens[j]@ == t@ && reachable_by_steps(
                arc_triples(self.edges@),
                i as nat,
                j as nat,
            )
    }

    pub fn new() -> (r: PoolGraph)
        ensures
            r.wf(),
            r.tokens.len() == 0,
            r.edges.len() == 0,
    {
        let r = PoolGraph { graph: graph_new(), tokens: Vec::new(), edges: Vec::new() };
        proof {
            assert(arc_triples(r.edges@) =~= Seq::<(nat, nat, nat)>::empty());
        }
        r
    }

    /// Node of token `t`, if any pool touches it.
    pub fn node_of(&self, t: &Token) -> (r: Option<usize>)
        ensures
            match r {
                Some(i) => i < self.tokens.len() && self.tokens[i as int]@ == t@,
                None => !self.has_token(*t),
            },
    {
        let mut i: usize = 0;
        while i < self.tokens.len()
            invariant
                i <= self.tokens.len(),
                forall|k: int| 0 <= k < i ==> self.tokens[k]@ != t@,
            decreases self.tokens.len() - i,
        {
            if self.tokens[i].same(t) {
                return Some(i);
            }
            i = i + 1;
        }
        None
    }

    fn ensure_node(&mut self, t: &Token) -> (r: usize)
        requires
            old(self).wf(),
            old(self).tokens.len() + 1 < 0xffff_ffff,
        ensures
            final(self).wf(),
            final(self).edges == old(self).edges,
            r < final(self).tokens.len(),
            final(self).tokens[r as int]@ == t@,
            final(self).tokens@ == old(self).tokens@ || final(self).tokens@ == old(
                self,
            ).tokens@.push(*t),
            final(self).tokens@ == old(self).tokens@ <==> old(self).has_token(*t),
    {
        match self.node_of(t) {
            Some(i) => i,
            None => {
                let i = graph_add_node(&mut self.graph);
                self.tokens.push(*t);
                proof {
                    assert forall|k: int| 0 <= k < self.edges.len() implies edge_ok(
                        self.tokens@,
                        #[trigger] self.edges[k],
                    ) by {
                        assert(edge_ok(old(self).tokens@, old(self).edges[k]));
                    }
                    assert(self.tokens@ != old(self).tokens@) by {
                        assert(self.tokens@.len() != old(self).tokens@.len());
                    }
                }
                i
            },
        }
    }

    /// Registers a pool: nodes for its tokens where they are new, then its
    /// edge A to B and its edge B to A. A pool must be added once; later
    /// changes go through `update_pool_liquidity`.
    pub fn add_pool(&mut self, pool: PoolEdge)
        requires
            old(self).wf(),
            pool.fee_bps < 10000,
            old(self).tokens.len() + 3 < 0xffff_ffff,
            old(self).edges.len() + 3 < 0xffff_ffff,
        ensures
            final(self).wf(),
            final(self).edges.len() == old(self).edges.len() + 2,
            forall|i: int|
                0 <= i < old(self).edges.len() ==> final(self).edges[i] == old(self).edges[i],
            final(self).edges[old(self).edges.len() as int].source == pool.token_a,
            final(self).edges[old(self).edges.len() as int].pool == pool,
            final(self).edges[old(self).edges.len() + 1].source == pool.token_b,
            final(self).edges[old(self).edges.len() + 1].pool == pool,
            final(self).has_token(pool.token_a),
            final(self).has_token(pool.token_b),
            forall|i: int|
                0 <= i < old(self).tokens.len() ==> final(self).tokens[i] == old(self).tokens[i],
            forall|i: int|
                0 <= i < final(self).tokens.len() ==> old(self).tokens.len() <= i ==> (
                #[trigger] final(self).tokens[i])@ == pool.token_a@ || final(self).tokens[i]@
                    == pool.token_b@,
    {
        let a = self.ensure_node(&pool.token_a);
        let ghost mid = self.tokens@;
        let b = self.ensure_node(&pool.token_b);
        proof {
            assert(self.tokens[a as int]@ == pool.token_a@);
        }
        let n = self.edges.len();
        let ab = DirectedEdge { from: a, to: b, source: pool.token_a, pool };
        let ba = DirectedEdge { from: b, to: a, source: pool.token_b, pool };
        graph_add_edge(&mut self.graph, a, b, n);
        self.edges.push(ab);
        graph_add_edge(&mut self.graph, b, a, n + 1);
        self.edges.push(ba);
        proof {
            assert(graph_edges(self.graph) =~= arc_triples(self.edges@));
            if pool.token_a@ == pool.token_b@ {
                assert(a == b);
            }
            assert forall|i: int| 0 <= i < self.edges.len() implies edge_ok(
                self.tokens@,
                #[trigger] self.edges[i],
            ) by {
                if i < n {
                    assert(edge_ok(old(self).tokens@, old(self).edges[i]));
                }
            }
            assert forall|k: int| 0 <= k < self.edges.len() / 2 implies {
                let ab = #[trigger] self.edges[2 * k];
                let ba = self.edges[2 * k + 1];
                &&& ab.pool == ba.pool
                &&& ab.source == ab.pool.token_a
                &&& ba.source == ab.pool.token_b
            } by {
                if 2 * k < n {
                    assert(old(self).edges[2 * k] == self.edges[2 * k]);
                    assert(old(self).edges[2 * k + 1] == self.edges[2 * k + 1]);
                } else {
                    assert(2 * k == n);
                }
            }
            assert(self.has_token(pool.token_a));
            assert(self.has_token(pool.token_b));
        }
    }

    /// Overwrites the reserves of every edge of pool `pool_address` (both
    /// directions), in the pool's A/B order. Fails with `PoolNotFound` when
    /// no edge belongs to that pool.
    pub fn update_pool_liquidity(&mut self, pool_address: &Token, reserve_a: u64, reserve_b: u64) -> (r:
        Result<(), ArbError>)
        requires
            old(self).wf(),
        ensures
            final(self).wf(),
            final(self).tokens == old(self).tokens,
            final(self).edges.len() == old(self).edges.len(),
            forall|i: int|
                0 <= i < old(self).edges.len() ==> (#[trigger] final(self).edges[i]) == if old(
                    self,
                ).edges[i].pool.pool_address@ == pool_address@ {
                    with_reserves(old(self).edges[i], reserve_a, reserve_b)
                } else {
                    old(self).edges[i]
                },
            r is Err <==> forall|i: int|
                0 <= i < old(self).edges.len() ==> old(self).edges[i].pool.pool_address@
                    != pool_address@,
            r is Err ==> r == Err::<(), ArbError>(ArbError::PoolNotFound),
    {
        let mut found = false;
        let mut i: usize = 0;
        while i < self.edges.len()
            invariant
                old(self).wf(),
                i <= self.edges.len(),
                self.edges.len() == old(self).edges.len(),
                self.graph == old(self).graph,
                self.tokens == old(self).tokens,
                forall|k: int|
                    0 <= k < i ==> (#[trigger] self.edges[k]) == if old(self).edges[k].pool.pool_address@
                        == pool_address@ {
                        with_reserves(old(self).edges[k], reserve_a, reserve_b)
                    } else {
                        old(self).edges[k]
                    },
                forall|k: int| i <= k < self.edges.len() ==> self.edges[k] == old(self).edges[k],
                found <==> exists|k: int|
                    0 <= k < i && old(self).edges[k].pool.pool_address@ == pool_address@,
            decreases self.edges.len() - i,
        {
            if self.edges[i].pool.pool_address.same(pool_address) {
                let mut e = self.edges[i];
                e.pool.reserve_a = reserve_a;
                e.pool.reserve_b = reserve_b;
                self.edges.set(i, e);
                found = true;
            }
            i = i + 1;
        }
        proof {
            assert(graph_edges(self.graph) =~= arc_triples(self.edges@)) by {
                assert(arc_triples(self.edges@) =~= arc_triples(old(self).edges@));
            }
            assert forall|k: int| 0 <= k < self.edges.len() implies edge_ok(
                self.tokens@,
                #[trigger] self.edges[k],
            ) by {
                assert(edge_ok(old(self).tokens@, old(self).edges[k]));
            }
            assert forall|k: int| 0 <= k < self.edges.len() / 2 implies {
                let ab = #[trigger] self.edges[2 * k];
                let ba = self.edges[2 * k + 1];
                &&& ab.pool == ba.pool
                &&& ab.source == ab.pool.token_a
                &&& ba.source == ab.pool.token_b
            } by {
                assert(old(self).edges[2 * k].pool == old(self).edges[2 * k + 1].pool);
                assert(self.edges[2 * k] == if old(self).edges[2 * k].pool.pool_address@
                    == pool_address@ {
                    with_reserves(old(self).edges[2 * k], reserve_a, reserve_b)
                } else {
                    old(self).edges[2 * k]
                });
                assert(self.edges[2 * k + 1] == if old(self).edges[2 * k + 1].pool.pool_address@
                    == pool_address@ {
                    with_reserves(old(self).edges[2 * k + 1], reserve_a, reserve_b)
                } else {
                    old(self).edges[2 * k + 1]
                });
            }
        }
        if found {
            Ok(())
        } else {
            Err(ArbError::PoolNotFound)
        }
    }

    /// Cheapest edge from node `a` to node `b` for a trade of `amount_in`,
    /// if any edge joins them.
    fn cheapest_edge(&self, a: usize, b: usize, amount_in: u64) -> (r: Option<usize>)
        requires
            self.wf(),
        ensures
            match r {
                Some(k) => {
                    &&& k < self.edges.len()
                    &&& self.edges[k as int].from == a
                    &&& self.edges[k as int].to == b
                    &&& forall|j: int|
                        0 <= j < self.edges.len() && self.edges[j].from == a && self.edges[j].to
                            == b ==> weight_of(
                            self.edges[k as int].pool,
                            self.edges[k as int].source,
                            amount_in as nat,
                        ) <= weight_of(
                            #[trigger] self.edges[j].pool,
                            self.edges[j].source,
                            amount_in as nat,
                        )
                },
                None => forall|k: int|
                    0 <= k < self.edges.len() ==> !(self.edges[k].from == a && self.edges[k].to
                        == b),
            },
    {
        let mut best: Option<usize> = None;
        let mut best_weight: u64 = 0;
        let mut k: usize = 0;
        while k < self.edges.len()
            invariant
                self.wf(),
                k <= self.edges.len(),
                match best {
                    Some(j) => {
                        &&& j < k
                        &&& self.edges[j as int].from == a
                        &&& self.edges[j as int].to == b
                        &&& best_weight == weight_of(
                            self.edges[j as int].pool,
                            self.edges[j as int].source,
                            amount_in as nat,
                        )
                        &&& forall|m: int|
                            0 <= m < k && self.edges[m].from == a && self.edges[m].to == b
                                ==> best_weight <= weight_of(
                                #[trigger] self.edges[m].pool,
                                self.edges[m].source,
                                amount_in as nat,
                            )
                    },
                    None => forall|m: int|
                        0 <= m < k ==> !(self.edges[m].from == a && self.edges[m].to == b),
                },
            decreases self.edges.len() - k,
        {
            if self.edges[k].from == a && self.edges[k].to == b {
                proof {
                    assert(edge_ok(self.tokens@, self.edges[k as int]));
                }
                let w = arc_weight(&self.edges, k, amount_in);
                match best {
                    None => {
                        best = Some(k);
                        best_weight = w;
                    },
                    Some(_) => {
                        if w < best_weight {
                            best = Some(k);
                            best_weight = w;
                        }
                    },
                }
            }
            k = k + 1;
        }
        best
    }

    /// Every edge's weight field names an edge of `edges` with a valid fee.
    proof fn lemma_weights_ok(&self)
        requires
            self.wf(),
        ensures
            forall|k: int|
                0 <= k < graph_edges(self.graph).len() ==> {
                    &&& (#[trigger] graph_edges(self.graph)[k]).2 < self.edges.len()
                    &&& self.edges[graph_edges(self.graph)[k].2 as int].pool.fee_bps <= 10000
                },
    {
        assert forall|k: int| 0 <= k < graph_edges(self.graph).len() implies {
            &&& (#[trigger] graph_edges(self.graph)[k]).2 < self.edges.len()
            &&& self.edges[graph_edges(self.graph)[k].2 as int].pool.fee_bps <= 10000
        } by {
            assert(edge_ok(self.tokens@, self.edges[k]));
        }
    }

    proof fn lemma_same_node(&self, i: int, j: int)
        requires
            self.wf(),
            0 <= i < self.tokens.len(),
            0 <= j < self.tokens.len(),
            self.tokens[i]@ == self.tokens[j]@,
        ensures
            i == j,
    {
        if i < j {
            assert(self.tokens[i]@ != self.tokens[j]@);
        } else if j < i {
            assert(self.tokens[j]@ != self.tokens[i]@);
        }
    }

    /// Each edge has a partner that runs the other way: the other edge of
    /// its pool.
    proof fn lemma_reverse_edge(&self, k: int) -> (r: int)
        requires
            self.wf(),
            0 <= k < self.edges.len(),
        ensures
            0 <= r < self.edges.len(),
            self.edges[r].from == self.edges[k].to,
            self.edges[r].to == self.edges[k].from,
    {
        let m = k / 2;
        assert(0 <= m < self.edges.len() / 2);
        let ab = self.edges[2 * m];
        let ba = self.edges[2 * m + 1];
        assert(ab.pool == ba.pool && ab.source == ab.pool.token_a && ba.source == ab.pool.token_b);
        assert(edge_ok(self.tokens@, ab));
        assert(edge_ok(self.tokens@, ba));
        self.lemma_same_node(ab.from as int, ba.to as int);
        self.lemma_same_node(ab.to as int, ba.from as int);
        if k == 2 * m {
            2 * m + 1
        } else {
            2 * m
        }
    }

    /// The cheapest edge of each step of the node path `path`, as hops.
    fn hops_along(&self, path: &Vec<usize>, amount_in: u64) -> (r: (
        Vec<(Token, PoolEdge)>,
        Ghost<Seq<int>>,
    ))
        requires
            self.wf(),
            path@.len() >= 2,
            is_node_path(
                graph_edges(self.graph),
                path@,
                path@[0] as nat,
                path@[path@.len() - 1] as nat,
            ),
        ensures
            r.0@.len() + 1 == path@.len(),
            r.1@.len() == r.0@.len(),
            forall|m: int|
                0 <= m < r.0@.len() ==> {
                    &&& 0 <= #[trigger] r.1@[m] < self.edges.len()
                    &&& self.edges[r.1@[m]].from == path@[m]
                    &&& self.edges[r.1@[m]].to == path@[m + 1]
                    &&& r.0@[m] == (self.edges[r.1@[m]].source, self.edges[r.1@[m]].pool)
                    &&& r.0@[m].0@ == self.tokens[path@[m] as int]@
                    &&& other_token(r.0@[m].0, r.0@[m].1)@ == self.tokens[path@[m + 1] as int]@
                    &&& path@[m] < self.tokens.len()
                    &&& path@[m + 1] < self.tokens.len()
                    &&& r.0@[m].1.fee_bps < 10000
                    &&& forall|j: int|
                        0 <= j < self.edges.len() && self.edges[j].from == path@[m]
                            && self.edges[j].to == path@[m + 1] ==> weight_of(
                            self.edges[r.1@[m]].pool,
                            self.edges[r.1@[m]].source,
                            amount_in as nat,
                        ) <= weight_of(
                            #[trigger] self.edges[j].pool,
                            self.edges[j].source,
                            amount_in as nat,
                        )
                },
    {
        let ghost edges = graph_edges(self.graph);
        let mut route: Vec<(Token, PoolEdge)> = Vec::new();
        let ghost mut ks: Seq<int> = Seq::empty();
        let mut i: usize = 0;
        while i + 1 < path.len()
            invariant
                self.wf(),
                edges == graph_edges(self.graph),
                is_node_path(edges, path@, path@[0] as nat, path@[path@.len() - 1] as nat),
                path@.len() >= 2,
                i + 1 <= path.len(),
                route.len() == i,
                ks.len() == i,
                forall|m: int|
                    0 <= m < i ==> {
                        &&& 0 <= #[trigger] ks[m] < self.edges.len()
                        &&& self.edges[ks[m]].from == path@[m]
                        &&& self.edges[ks[m]].to == path@[m + 1]
                        &&& route@[m] == (self.edges[ks[m]].source, self.edges[ks[m]].pool)
                        &&& route@[m].0@ == self.tokens[path@[m] as int]@
                        &&& other_token(route@[m].0, route@[m].1)@ == self.tokens[path@[m
                            + 1] as int]@
                        &&& path@[m] < self.tokens.len()
                        &&& path@[m + 1] < self.tokens.len()
                        &&& route@[m].1.fee_bps < 10000
                        &&& forall|j: int|
                            0 <= j < self.edges.len() && self.edges[j].from == path@[m]
                                && self.edges[j].to == path@[m + 1] ==> weight_of(
                                self.edges[ks[m]].pool,
                                self.edges[ks[m]].source,
                                amount_in as nat,
                            ) <= weight_of(
                                #[trigger] self.edges[j].pool,
                                self.edges[j].source,
                                amount_in as nat,
                            )
                    },
            decreases path.len() - i,
        {
            let a = path[i];
            let b = path[i + 1];
            proof {
                let k = choose|k: int|
                    0 <= k < edges.len() && edges[k].0 == path@[i as int] && edges[k].1
                        == path@[i + 1];
                assert(edges[k] == arc_triples(self.edges@)[k]);
            }
            match self.cheapest_edge(a, b, amount_in) {
                Some(k) => {
                    proof {
                        assert(edge_ok(self.tokens@, self.edges[k as int]));
                    }
                    route.push((self.edges[k].source, self.edges[k].pool));
                    proof {
                        ks = ks.push(k as int);
                    }
                },
                None => {
                    proof {
                        assert(false);
                    }
                },
            }
            i = i + 1;
        }
        (route, Ghost(ks))
    }

    /// Cheapest walk of at least one edge out of node `s` and back, as
    /// hops: an edge out of `s`, then the cheapest path home.
    fn cycle_route(&self, s: usize, amount_in: u64) -> (r: Option<Vec<(Token, PoolEdge)>>)
        requires
            self.wf(),
            s < self.tokens.len(),
        ensures
            r is None <==> !reachable_by_steps(arc_triples(self.edges@), s as nat, s as nat),
            r matches Some(route) ==> valid_route(
                self.edges@,
                route@,
                self.tokens[s as int],
                self.tokens[s as int],
            ),
            r matches Some(route) ==> crate::route_optimizer::fees_ok(route@),
            r matches Some(route) ==> forall|i: int, j: int|
                0 <= i < j < route@.len() ==> route@[i].0@ != route@[j].0@,
    {
        let ghost triples = arc_triples(self.edges@);
        let mut k0: usize = 0;
        while k0 < self.edges.len() && self.edges[k0].from != s
            invariant
                k0 <= self.edges.len(),
                forall|m: int| 0 <= m < k0 ==> self.edges[m].from != s,
            decreases self.edges.len() - k0,
        {
            k0 = k0 + 1;
        }
        if k0 == self.edges.len() {
            proof {
                if reachable_by_steps(triples, s as nat, s as nat) {
                    let w = choose|w: Seq<int>|
                        w.len() > 0 && #[trigger] is_walk(triples, w, s as nat, s as nat);
                    assert(0 <= w[0] < triples.len());
                    assert(self.edges[w[0]].from == s);
                }
            }
            return None;
        }
        proof {
            assert(edge_ok(self.tokens@, self.edges[k0 as int]));
        }
        let x = self.edges[k0].to;
        let first = (self.edges[k0].source, self.edges[k0].pool);
        if x == s {
            let mut route: Vec<(Token, PoolEdge)> = Vec::new();
            route.push(first);
            proof {
                let w = seq![k0 as int];
                assert(is_walk(triples, w, s as nat, s as nat));
                assert(route@[0] == first);
                assert(0 <= k0 < self.edges@.len() && self.edges@[k0 as int].source == route@[0].0
                    && self.edges@[k0 as int].pool == route@[0].1);
            }
            return Some(route);
        }
        let ghost rk = self.lemma_reverse_edge(k0 as int);
        proof {
            self.lemma_weights_ok();
            assert(is_walk(graph_edges(self.graph), seq![rk], x as nat, s as nat));
        }
        let path = match graph_shortest_path(&self.graph, &self.edges, x, s, amount_in) {
            Some((_, p)) => p,
            None => {
                proof {
                    assert(false);
                }
                return None;
            },
        };
        proof {
            assert(path@.len() >= 2);
        }
        let (mut hops, Ghost(ks)) = self.hops_along(&path, amount_in);
        let ghost tail = hops@;
        let mut route: Vec<(Token, PoolEdge)> = Vec::new();
        route.push(first);
        route.append(&mut hops);
        proof {
            let n = route@.len() as int;
            assert(route@ == seq![first] + tail);
            assert forall|m: int| 0 <= m < tail.len() implies route@[m + 1] == tail[m] by {}
            let w = seq![k0 as int, rk];
            assert(is_walk(triples, w, s as nat, s as nat));
            // hops chain token to token and return to s
            assert forall|m: int| 0 <= m < n - 1 implies other_token(route@[m].0, route@[m].1)@
                == (#[trigger] route@[m + 1]).0@ by {
                if m > 0 {
                    assert(route@[m] == tail[m - 1]);
                    assert(0 <= ks[m - 1] < self.edges.len());
                    assert(0 <= ks[m] < self.edges.len());
                } else {
                    assert(0 <= ks[0] < self.edges.len());
                }
            }
            assert(route@[n - 1] == tail[n - 2]);
            assert(0 <= ks[n - 2] < self.edges.len());
            assert forall|m: int| 0 <= m < n implies exists|k: int|
                0 <= k < self.edges@.len() && self.edges@[k].source == (#[trigger] route@[m]).0
                    && self.edges@[k].pool == route@[m].1 by {
                if m > 0 {
                    assert(0 <= ks[m - 1] < self.edges.len());
                } else {
                    assert(self.edges@[k0 as int].source == route@[0].0);
                }
            }
            assert forall|m: int| 0 <= m < n implies (#[trigger] route@[m]).1.fee_bps <= 10000 by {
                if m > 0 {
                    assert(0 <= ks[m - 1] < self.edges.len());
                }
            }
            // the path home repeats no node and reaches s only at its end
            assert forall|i: int, j: int| 0 <= i < j < n implies route@[i].0@ != route@[j].0@ by {
                assert(0 <= ks[j - 1] < self.edges.len());
                assert(route@[j].0@ == self.tokens[path@[j - 1] as int]@);
                if i > 0 {
                    assert(0 <= ks[i - 1] < self.edges.len());
                    assert(path@[i - 1] != path@[j - 1]);
                    if route@[i].0@ == route@[j].0@ {
                        self.lemma_same_node(path@[i - 1] as int, path@[j - 1] as int);
                    }
                } else {
                    assert(path@[j - 1] != path@[path@.len() - 1]);
                    if route@[i].0@ == route@[j].0@ {
                        self.lemma_same_node(s as int, path@[j - 1] as int);
                    }
                }
            }
        }
        Some(route)
    }

    /// Minimum-cost route from `from` to `to`, every edge weighed with
    /// the initial `amount_in`; it passes no token twice. From a token to
    /// itself the route is a round trip of at least one hop. Fails with
    /// `TokenNotInGraph` when a token has no node, and with `NoRouteFound`
    /// when no walk of at least one edge joins them.
    pub fn find_route(&self, from: &Token, to: &Token, amount_in: u64) -> (r: Result<
        Vec<(Token, PoolEdge)>,
        ArbError,
    >)
        requires
            self.wf(),
        ensures
            r == Err::<Vec<(Token, PoolEdge)>, ArbError>(ArbError::TokenNotInGraph) <==> !(
            self.has_token(*from) && self.has_token(*to)),
            r == Err::<Vec<(Token, PoolEdge)>, ArbError>(ArbError::NoRouteFound) <==> (
            self.has_token(*from) && self.has_token(*to) && !self.connected(*from, *to)),
            r matches Err(e) ==> e == ArbError::TokenNotInGraph || e == ArbError::NoRouteFound,
            r matches Ok(route) ==> valid_route(self.edges@, route@, *from, *to),
            r matches Ok(route) ==> crate::route_optimizer::fees_ok(route@),
            r matches Ok(route) ==> forall|i: int, j: int|
                0 <= i < j < route@.len() ==> route@[i].0@ != route@[j].0@,
            r matches Ok(route) ==> from@ != to@ ==> forall|i: int|
                0 <= i < route@.len() ==> (#[trigger] route@[i]).0@ != to@,
            r matches Ok(route) ==> from@ != to@ ==> forall|w: Seq<int>|
                #[trigger] is_walk(
                    arc_triples(self.edges@),
                    w,
                    self.index_of(*from),
                    self.index_of(*to),
                ) ==> route_cost(route@, amount_in as nat) <= walk_cost(
                    arc_triples(self.edges@),
                    self.edges@,
                    w,
                    amount_in as nat,
                ),
    {
        let s = match self.node_of(from) {
            Some(i) => i,
            None => {
                return Err(ArbError::TokenNotInGraph);
            },
        };
        let t = match self.node_of(to) {
            Some(j) => j,
            None => {
                return Err(ArbError::TokenNotInGraph);
            },
        };
        proof {
            self.lemma_connected_nodes(*from, *to, s, t);
            self.lemma_weights_ok();
        }
        if from.same(to) {
            proof {
                self.lemma_same_node(s as int, t as int);
            }
            return match self.cycle_route(s, amount_in) {
                Some(route) => Ok(route),
                None => Err(ArbError::NoRouteFound),
            };
        }
        proof {
            assert(s != t);
        }
        let (cost, path) = match graph_shortest_path(&self.graph, &self.edges, s, t, amount_in) {
            Some(found) => found,
            None => {
                proof {
                    if reachable_by_steps(arc_triples(self.edges@), s as nat, t as nat) {
                        let w = choose|w: Seq<int>|
                            w.len() > 0 && #[trigger] is_walk(
                                arc_triples(self.edges@),
                                w,
                                s as nat,
                                t as nat,
                            );
                        assert(reachable(graph_edges(self.graph), s as nat, t as nat));
                    }
                }
                return Err(ArbError::NoRouteFound);
            },
        };
        let ghost edges = graph_edges(self.graph);
        proof {
            assert(path@.len() >= 2);
            let w = choose|w: Seq<int>| is_walk(edges, w, s as nat, t as nat);
            assert(w.len() > 0);
            assert(reachable_by_steps(arc_triples(self.edges@), s as nat, t as nat));
        }
        let (route, Ghost(ks)) = self.hops_along(&path, amount_in);
        proof {
            let n = route@.len() as int;
            assert(n >= 1);
            assert forall|m: int| 0 <= m < n - 1 implies other_token(route@[m].0, route@[m].1)@ == (
            #[trigger] route@[m + 1]).0@ by {
                assert(0 <= ks[m] < self.edges.len());
                assert(0 <= ks[m + 1] < self.edges.len());
            }
            assert forall|m: int| 0 <= m < n implies exists|k: int|
                0 <= k < self.edges@.len() && self.edges@[k].source == (#[trigger] route@[m]).0
                    && self.edges@[k].pool == route@[m].1 by {
                assert(0 <= ks[m] < self.edges.len());
            }
            assert(0 <= ks[0] < self.edges.len());
            assert(0 <= ks[n - 1] < self.edges.len());
            assert forall|m: int| 0 <= m < n implies (#[trigger] route@[m]).1.fee_bps <= 10000 by {
                assert(0 <= ks[m] < self.edges.len());
            }
            // distinct nodes on the path are distinct tokens
            assert forall|i: int, j: int| 0 <= i < j < n implies route@[i].0@ != route@[j].0@ by {
                assert(0 <= ks[i] < self.edges.len());
                assert(0 <= ks[j] < self.edges.len());
                assert(path@[i] != path@[j]);
                if route@[i].0@ == route@[j].0@ {
                    self.lemma_same_node(path@[i] as int, path@[j] as int);
                }
            }
            assert forall|i: int| 0 <= i < n implies (#[trigger] route@[i]).0@ != to@ by {
                assert(0 <= ks[i] < self.edges.len());
                assert(path@[i] != path@[n]);
                if route@[i].0@ == to@ {
                    self.lemma_same_node(path@[i] as int, t as int);
                }
            }
            // the route costs no more than the walk that the search reported
            let w0 = choose|w: Seq<int>|
                #[trigger] walk_along(edges, w, path@) && walk_cost(
                    edges,
                    self.edges@,
                    w,
                    amount_in as nat,
                ) == cost;
            assert forall|m: int| 0 <= m < ks.len() implies graph_edge_cost(
                edges,
                self.edges@,
                #[trigger] ks[m],
                amount_in as nat,
            ) <= graph_edge_cost(edges, self.edges@, w0[m], amount_in as nat) by {
                assert(0 <= w0[m] < edges.len());
                assert(edges[w0[m]] == arc_triples(self.edges@)[w0[m]]);
                assert(edges[ks[m]] == arc_triples(self.edges@)[ks[m]]);
                assert(self.edges[w0[m]].from == path@[m]);
            }
            lemma_walk_cost_le(edges, self.edges@, ks, w0, amount_in as nat);
            lemma_route_cost_walk(route@, self.edges@, ks, amount_in as nat);
            self.lemma_index_of(*from, s);
            self.lemma_index_of(*to, t);
        }
        Ok(route)
    }

    /// Node of token `t`, where the graph has one.
    pub open spec fn index_of(&self, t: Token) -> nat {
        (choose|i: int| 0 <= i < self.tokens.len() && self.tokens[i]@ == t@) as nat
    }

    proof fn lemma_index_of(&self, t: Token, s: usize)
        requires
            self.wf(),
            s < self.tokens.len(),
            self.tokens[s as int]@ == t@,
        ensures
            self.index_of(t) == s,
    {
        let i = choose|i: int| 0 <= i < self.tokens.len() && self.tokens[i]@ == t@;
        if i < s {
            assert(self.tokens[i]@ != self.tokens[s as int]@);
        } else if i > s {
            assert(self.tokens[s as int]@ != self.tokens[i]@);
        }
    }

    /// With `s` and `t` the nodes of `f` and `g`, the tokens are connected
    /// exactly when the nodes are reachable.
    proof fn lemma_connected_nodes(&self, f: Token, g: Token, s: usize, t: usize)
        requires
            self.wf(),
            s < self.tokens.len(),
            t < self.tokens.len(),
            self.tokens[s as int]@ == f@,
            self.tokens[t as int]@ == g@,
        ensures
            self.connected(f, g) == reachable_by_steps(arc_triples(self.edges@), s as nat, t as nat),
    {
        if self.connected(f, g) {
            let (i, j) = choose|i: int, j: int|
                0 <= i < self.tokens.len() && 0 <= j < self.tokens.len() && self.tokens[i]@ == f@
                    && self.tokens[j]@ == g@ && reachable_by_steps(
                    arc_triples(self.edges@),
                    i as nat,
                    j as nat,
                );
            assert(i == s as int) by {
                if i < s {
                    assert(self.tokens[i]@ != self.tokens[s as int]@);
                } else if i > s {
                    assert(self.tokens[s as int]@ != self.tokens[i]@);
                }
            }
            assert(j == t as int) by {
                if j < t {
                    assert(self.tokens[j]@ != self.tokens[t as int]@);
                } else if j > t {
                    assert(self.tokens[t as int]@ != self.tokens[j]@);
                }
            }
        }
    }
    /// Number of registered pools (each has two edges).
    pub fn pool_count(&self) -> (r: usize)
        requires
            self.wf(),
        ensures
            r == self.edges.len() / 2,
    {
        self.edges.len() / 2
    }
} // impl

/// Every registered pool joins its two tokens in both directions: a walk
/// leads from token A to token B and one from B to A, so a route between
/// them is found either way.
pub proof fn lemma_pool_links_both_ways(g: PoolGraph, k: int)
    requires
        g.wf(),
        0 <= k < g.edges.len() / 2,
    ensures
        g.connected(g.edges[2 * k].pool.token_a, g.edges[2 * k].pool.token_b),
        g.connected(g.edges[2 * k].pool.token_b, g.edges[2 * k].pool.token_a),
{
    let ab = g.edges[2 * k];
    let ba = g.edges[2 * k + 1];
    let triples = arc_triples(g.edges@);
    assert(edge_ok(g.tokens@, ab));
    assert(edge_ok(g.tokens@, ba));
    let w1 = seq![2 * k];
    let w2 = seq![2 * k + 1];
    assert(is_walk(triples, w1, ab.from as nat, ab.to as nat));
    assert(is_walk(triples, w2, ba.from as nat, ba.to as nat));
    assert(g.tokens[ab.from as int]@ == ab.pool.token_a@);
    assert(g.tokens[ab.to as int]@ == ab.pool.token_b@);
    assert(g.tokens[ba.from as int]@ == ab.pool.token_b@);
    assert(g.tokens[ba.to as int]@ == ab.pool.token_a@);
    assert(reachable(triples, ab.from as nat, ab.to as nat));
    assert(reachable(triples, ba.from as nat, ba.to as nat));
}

/// In a graph of a single pool, a route between its two tokens that
/// passes no token twice is the one hop through that pool.
pub proof fn lemma_one_pool_one_hop(
    g: PoolGraph,
    route: Seq<(Token, PoolEdge)>,
    from: Token,
    to: Token,
)
    requires
        g.wf(),
        g.edges.len() == 2,
        from@ != to@,
        valid_route(g.edges@, route, from, to),
        forall|i: int, j: int| 0 <= i < j < route.len() ==> route[i].0@ != route[j].0@,
        forall|i: int| 0 <= i < route.len() ==> (#[trigger] route[i]).0@ != to@,
    ensures
        route.len() == 1,
        route[0].1 == g.edges[0].pool,
{
    let p = g.edges[0].pool;
    assert(0 < g.edges.len() / 2);
    assert(g.edges[2 * 0int] == g.edges[0]);
    assert(g.edges[1].pool == p);
    assert forall|i: int| 0 <= i < route.len() implies (#[trigger] route[i]).1 == p && (route[i].0
        == p.token_a || route[i].0 == p.token_b) by {
        let k = choose|k: int|
            0 <= k < g.edges@.len() && g.edges@[k].source == route[i].0 && g.edges@[k].pool
                == route[i].1;
    }
    if route.len() > 1 {
        let n = route.len() as int;
        assert(route[n - 1].1 == p);
        assert(route[0].1 == p);
        assert(route[1].0@ != route[0].0@);
        assert(route[1].0@ != to@);
    }
}

proof fn lemma_walk_cost_le(
    edges: Seq<(nat, nat, nat)>,
    arcs: Seq<DirectedEdge>,
    w1: Seq<int>,
    w2: Seq<int>,
    amount: nat,
)
    requires
        w1.len() == w2.len(),
        forall|i: int|
            0 <= i < w1.len() ==> graph_edge_cost(edges, arcs, #[trigger] w1[i], amount)
                <= graph_edge_cost(edges, arcs, w2[i], amount),
    ensures
        walk_cost(edges, arcs, w1, amount) <= walk_cost(edges, arcs, w2, amount),
    decreases w1.len(),
{
    if w1.len() > 0 {
        let (a, b) = (w1.drop_last(), w2.drop_last());
        assert forall|i: int| 0 <= i < a.len() implies graph_edge_cost(
            edges,
            arcs,
            #[trigger] a[i],
            amount,
        ) <= graph_edge_cost(edges, arcs, b[i], amount) by {
            assert(a[i] == w1[i] && b[i] == w2[i]);
        }
        lemma_walk_cost_le(edges, arcs, a, b, amount);
        assert(graph_edge_cost(edges, arcs, w1[w1.len() - 1], amount) <= graph_edge_cost(
            edges,
            arcs,
            w2[w2.len() - 1],
            amount,
        ));
    }
}

proof fn lemma_route_cost_walk(
    route: Seq<(Token, PoolEdge)>,
    arcs: Seq<DirectedEdge>,
    ks: Seq<int>,
    amount: nat,
)
    requires
        route.len() == ks.len(),
        forall|m: int|
            0 <= m < ks.len() ==> {
                &&& 0 <= #[trigger] ks[m] < arcs.len()
                &&& route[m] == (arcs[ks[m]].source, arcs[ks[m]].pool)
            },
    ensures
        route_cost(route, amount) == walk_cost(arc_triples(arcs), arcs, ks, amount),
    decreases ks.len(),
{
    if ks.len() > 0 {
        let (r1, k1) = (route.drop_last(), ks.drop_last());
        assert forall|m: int| 0 <= m < k1.len() implies {
            &&& 0 <= #[trigger] k1[m] < arcs.len()
            &&& r1[m] == (arcs[k1[m]].source, arcs[k1[m]].pool)
        } by {
            assert(k1[m] == ks[m] && r1[m] == route[m]);
        }
        lemma_route_cost_walk(r1, arcs, k1, amount);
        let last = ks[ks.len() - 1];
        assert(0 <= last < arcs.len());
        assert(arc_triples(arcs)[last].2 == last);
    }
}

} // verus!
