//! The liquidity graph: a weighted directed multigraph over assets, built
//! either from a snapshot of exchange pools or directly from market rate
//! edges.
//!
//! Assets are dense indices `0 .. n_assets`. A pool contributes one edge in
//! each direction, weighted by its effective rate
//! `(1 - fee) * normalized_liquidity`. Pools with out-of-range liquidity or
//! fees are dropped with a warning, never merged.

use vstd::prelude::*;
use crate::rate::{RATE_SCALE, lemma_rate_applied_le};

verus! {

/// One exchange pool between two assets; undirected, it converts in both
/// directions at the same effective rate.
#[derive(Clone, Copy, Debug)]
pub struct PoolEdge {
    pub asset_a: usize,
    pub asset_b: usize,
    /// Normalized liquidity depth in parts per million of full depth; usable
    /// pools have it in (0, 1].
    pub liquidity_ppm: u64,
    /// Pool fee in parts per million; usable pools have it in [0, 1).
    pub fee_ppm: u64,
    /// Identifier of the protocol operating the pool.
    pub protocol: u32,
}

/// One directed edge of the built graph.
#[derive(Clone, Copy, Debug)]
pub struct GraphEdge {
    pub to: usize,
    /// Conversion rate applied to an amount moved along this edge, ppm.
    pub rate_ppm: u64,
    pub fee_ppm: u64,
    pub liquidity_ppm: u64,
    pub protocol: u32,
    /// Index of the pool this edge came from within its snapshot.
    pub pool: usize,
}

/// A directed rate edge, for building a graph straight from quoted market
/// rates (which may exceed one whole) rather than from a pool snapshot.
#[derive(Clone, Copy, Debug)]
pub struct RateEdge {
    pub from: usize,
    pub to: usize,
    pub rate_ppm: u64,
    pub fee_ppm: u64,
    pub liquidity_ppm: u64,
    pub protocol: u32,
    pub pool: usize,
}

/// Adjacency view of the conversion market: `adj[u]` lists the edges leaving
/// asset `u`. Immutable once built.
pub struct LiquidityGraph {
    pub n_assets: usize,
    pub adj: Vec<Vec<GraphEdge>>,
}

impl PoolEdge {
    /// `(1 - fee) * normalized_liquidity`, in ppm, rounded down.
    pub open spec fn spec_effective_rate(self) -> int {
        ((RATE_SCALE - self.fee_ppm) * self.liquidity_ppm) / (RATE_SCALE as int)
    }

    /// A pool enters the graph only if its endpoints exist, its liquidity is
    /// positive and at most one whole, its fee is below one whole, and its
    /// effective rate does not round down to nothing.
    pub open spec fn accepted(self, n_assets: usize) -> bool {
        &&& self.asset_a < n_assets
        &&& self.asset_b < n_assets
        &&& 0 < self.liquidity_ppm <= RATE_SCALE
        &&& self.fee_ppm < RATE_SCALE
        &&& self.spec_effective_rate() >= 1
    }

    /// The directed rate edge this pool contributes leaving `asset_a`.
    pub open spec fn rate_edge_a(self, pool: usize) -> RateEdge {
        RateEdge {
            from: self.asset_a,
            to: self.asset_b,
            rate_ppm: self.spec_effective_rate() as u64,
            fee_ppm: self.fee_ppm,
            liquidity_ppm: self.liquidity_ppm,
            protocol: self.protocol,
            pool,
        }
    }

    /// The directed rate edge this pool contributes leaving `asset_b`.
    pub open spec fn rate_edge_b(self, pool: usize) -> RateEdge {
        RateEdge {
            from: self.asset_b,
            to: self.asset_a,
            rate_ppm: self.spec_effective_rate() as u64,
            fee_ppm: self.fee_ppm,
            liquidity_ppm: self.liquidity_ppm,
            protocol: self.protocol,
            pool,
        }
    }
}

impl RateEdge {
    /// Endpoints exist, the rate is positive, liquidity is in (0, 1] and the
    /// fee below one whole.
    pub open spec fn valid(self, n_assets: usize) -> bool {
        &&& self.from < n_assets
        &&& self.to < n_assets
        &&& 1 <= self.rate_ppm
        &&& 0 < self.liquidity_ppm <= RATE_SCALE
        &&& self.fee_ppm < RATE_SCALE
    }

    pub open spec fn as_graph_edge(self) -> GraphEdge {
        GraphEdge {
            to: self.to,
            rate_ppm: self.rate_ppm,
            fee_ppm: self.fee_ppm,
            liquidity_ppm: self.liquidity_ppm,
            protocol: self.protocol,
            pool: self.pool,
        }
    }
}

impl GraphEdge {
    pub open spec fn edge_ok(self, n_assets: usize) -> bool {
        &&& self.to < n_assets
        &&& 1 <= self.rate_ppm
        &&& 0 < self.liquidity_ppm <= RATE_SCALE
        &&& self.fee_ppm < RATE_SCALE
    }
}

impl LiquidityGraph {
    /// Every adjacency row exists and every edge points at a real asset with
    /// in-range weights.
    pub open spec fn wf(self) -> bool {
        &&& self.adj@.len() == self.n_assets
        &&& forall|u: int, j: int|
            0 <= u < self.adj@.len() && 0 <= j < self.adj@[u]@.len()
                ==> (#[trigger] self.adj@[u]@[j]).edge_ok(self.n_assets)
    }

    /// Edge `e` leaves asset `u` in this graph.
    pub open spec fn has_edge(self, u: int, e: GraphEdge) -> bool {
        0 <= u < self.adj@.len() && self.adj@[u]@.contains(e)
    }

    /// Some edge leads from `u` to `v`.
    pub open spec fn connected(self, u: int, v: int) -> bool {
        exists|e: GraphEdge| self.has_edge(u, e) && e.to == v
    }

    /// No edge's rate exceeds its fee-only rate `1 - fee` (true of every
    /// pool-built graph); point-to-point routing requires this.
    pub open spec fn rates_bounded(self) -> bool {
        forall|u: int, j: int|
            0 <= u < self.adj@.len() && 0 <= j < self.adj@[u]@.len()
                ==> (#[trigger] self.adj@[u]@[j]).rate_ppm + self.adj@[u]@[j].fee_ppm
                    <= RATE_SCALE
    }
}

/// The adjacency row of asset `u`: the graph edges of the first `k` rate
/// edges that leave `u`, in order.
pub open spec fn edges_from(edges: Seq<RateEdge>, u: int, k: int) -> Seq<GraphEdge>
    decreases k,
{
    if k <= 0 {
        Seq::empty()
    } else if edges[k - 1].from as int == u {
        edges_from(edges, u, k - 1).push(edges[k - 1].as_graph_edge())
    } else {
        edges_from(edges, u, k - 1)
    }
}

/// The directed rate edges contributed by the first `k` pools: two per
/// accepted pool, none for a rejected one.
pub open spec fn expand_pools(pools: Seq<PoolEdge>, n_assets: usize, k: int) -> Seq<RateEdge>
    decreases k,
{
    if k <= 0 {
        Seq::empty()
    } else if pools[k - 1].accepted(n_assets) {
        expand_pools(pools, n_assets, k - 1).push(pools[k - 1].rate_edge_a((k - 1) as usize)).push(
            pools[k - 1].rate_edge_b((k - 1) as usize),
        )
    } else {
        expand_pools(pools, n_assets, k - 1)
    }
}

/// The pool indices that `build_graph` rejects among the first `k` pools, in
/// ascending order.
pub open spec fn rejected_pools(pools: Seq<PoolEdge>, n_assets: usize, k: int) -> Seq<usize>
    decreases k,
{
    if k <= 0 {
        Seq::empty()
    } else if pools[k - 1].accepted(n_assets) {
        rejected_pools(pools, n_assets, k - 1)
    } else {
        rejected_pools(pools, n_assets, k - 1).push((k - 1) as usize)
    }
}

/// Edge `e`, leaving asset `u`, is one of the two directed edges of an
/// accepted pool in the snapshot.
pub open spec fn edge_explained_by_pool(
    e: GraphEdge,
    pools: Seq<PoolEdge>,
    n_assets: usize,
    u: int,
) -> bool {
    exists|p: int|
        0 <= p < pools.len() && (#[trigger] pools[p]).accepted(n_assets) && (e == pools[
            p
        ].rate_edge_a(p as usize).as_graph_edge() && pools[p].asset_a as int == u || e == pools[
            p
        ].rate_edge_b(p as usize).as_graph_edge() && pools[p].asset_b as int == u)
}

/// Every element of an adjacency row comes from some rate edge leaving `u`.
pub proof fn lemma_edges_from_sound(edges: Seq<RateEdge>, u: int, k: int, j: int)
    requires
        0 <= k <= edges.len(),
        0 <= j < edges_from(edges, u, k).len(),
    ensures
        exists|k2: int|
            0 <= k2 < k && edges_from(edges, u, k)[j] == (#[trigger] edges[k2].as_graph_edge())
                && edges[k2].from as int == u,
    decreases k,
{
    let s = edges_from(edges, u, k);
    let s0 = edges_from(edges, u, k - 1);
    if edges[k - 1].from as int == u && j == s0.len() {
        assert(s[j] == edges[k - 1].as_graph_edge());
    } else {
        lemma_edges_from_sound(edges, u, k - 1, j);
        let k2 = choose|k2: int|
            0 <= k2 < k - 1 && s0[j] == (#[trigger] edges[k2].as_graph_edge())
                && edges[k2].from as int == u;
        assert(s[j] == s0[j]);
        assert(s[j] == edges[k2].as_graph_edge());
    }
}

/// Every rate edge leaving `u` shows up in the adjacency row of `u`.
pub proof fn lemma_edges_from_complete(edges: Seq<RateEdge>, u: int, k: int, k2: int)
    requires
        0 <= k2 < k <= edges.len(),
        edges[k2].from as int == u,
    ensures
        edges_from(edges, u, k).contains(edges[k2].as_graph_edge()),
    decreases k,
{
    let s = edges_from(edges, u, k);
    let s0 = edges_from(edges, u, k - 1);
    if k2 == k - 1 {
        assert(s[s0.len() as int] == edges[k2].as_graph_edge());
        assert(s.contains(edges[k2].as_graph_edge()));
    } else {
        lemma_edges_from_complete(edges, u, k - 1, k2);
        let i = choose|i: int| 0 <= i < s0.len() && s0[i] == edges[k2].as_graph_edge();
        assert(s[i] == edges[k2].as_graph_edge());
        assert(s.contains(edges[k2].as_graph_edge()));
    }
}

/// Every expanded rate edge is in range and belongs to an accepted pool.
pub proof fn lemma_expand_sound(pools: Seq<PoolEdge>, n_assets: usize, k: int, j: int)
    requires
        0 <= k <= pools.len(),
        0 <= j < expand_pools(pools, n_assets, k).len(),
    ensures
        expand_pools(pools, n_assets, k)[j].valid(n_assets),
        expand_pools(pools, n_assets, k)[j].rate_ppm + expand_pools(pools, n_assets, k)[j].fee_ppm
            <= RATE_SCALE,
        exists|q: int|
            0 <= q < k && (#[trigger] pools[q]).accepted(n_assets)
                && (expand_pools(pools, n_assets, k)[j] == pools[q].rate_edge_a(q as usize)
                    || expand_pools(pools, n_assets, k)[j] == pools[q].rate_edge_b(q as usize)),
    decreases k,
{
    let s = expand_pools(pools, n_assets, k);
    let s0 = expand_pools(pools, n_assets, k - 1);
    if pools[k - 1].accepted(n_assets) && j >= s0.len() {
        let p = pools[k - 1];
        lemma_rate_applied_le((RATE_SCALE - p.fee_ppm) as u64, p.liquidity_ppm);
        assert(1 <= p.spec_effective_rate() <= RATE_SCALE - p.fee_ppm);
        if j == s0.len() {
            assert(s[j] == p.rate_edge_a((k - 1) as usize));
        } else {
            assert(s[j] == p.rate_edge_b((k - 1) as usize));
        }
        assert(pools[k - 1].accepted(n_assets));
    } else {
        lemma_expand_sound(pools, n_assets, k - 1, j);
        let q = choose|q: int|
            0 <= q < k - 1 && (#[trigger] pools[q]).accepted(n_assets)
                && (s0[j] == pools[q].rate_edge_a(q as usize)
                    || s0[j] == pools[q].rate_edge_b(q as usize));
        assert(s[j] == s0[j]);
        assert(pools[q].accepted(n_assets));
    }
}

/// Both directed edges of an accepted pool are among the expanded rate edges.
pub proof fn lemma_expand_complete(pools: Seq<PoolEdge>, n_assets: usize, k: int, q: int)
    requires
        0 <= q < k <= pools.len(),
        pools[q].accepted(n_assets),
    ensures
        exists|i: int|
            0 <= i < expand_pools(pools, n_assets, k).len()
                && #[trigger] expand_pools(pools, n_assets, k)[i]
                == pools[q].rate_edge_a(q as usize),
        exists|i: int|
            0 <= i < expand_pools(pools, n_assets, k).len()
                && #[trigger] expand_pools(pools, n_assets, k)[i]
                == pools[q].rate_edge_b(q as usize),
    decreases k,
{
    let s = expand_pools(pools, n_assets, k);
    let s0 = expand_pools(pools, n_assets, k - 1);
    if q == k - 1 {
        assert(s[s0.len() as int] == pools[q].rate_edge_a(q as usize));
        assert(s[s0.len() as int + 1] == pools[q].rate_edge_b(q as usize));
    } else {
        lemma_expand_complete(pools, n_assets, k - 1, q);
        let ia = choose|i: int|
            0 <= i < s0.len() && #[trigger] s0[i] == pools[q].rate_edge_a(q as usize);
        let ib = choose|i: int|
            0 <= i < s0.len() && #[trigger] s0[i] == pools[q].rate_edge_b(q as usize);
        assert(s[ia] == pools[q].rate_edge_a(q as usize));
        assert(s[ib] == pools[q].rate_edge_b(q as usize));
    }
}

/// Builds the adjacency view from directed rate edges: row `u` holds exactly
/// the edges leaving `u`, in the order given.
pub fn from_rate_edges(n_assets: usize, edges: &Vec<RateEdge>) -> (g: LiquidityGraph)
    requires
        forall|k: int| 0 <= k < edges@.len() ==> (#[trigger] edges@[k]).valid(n_assets),
    ensures
        g.wf(),
        g.n_assets == n_assets,
        forall|v: int|
            0 <= v < n_assets ==> #[trigger] g.adj@[v]@ == edges_from(
                edges@,
                v,
                edges@.len() as int,
            ),
        forall|k: int|
            0 <= k < edges@.len()
                ==> g.has_edge((#[trigger] edges@[k]).from as int, edges@[k].as_graph_edge()),
{
    let n_edges = edges.len();
    let mut adj: Vec<Vec<GraphEdge>> = Vec::new();
    let mut u: usize = 0;
    while u < n_assets
        invariant
            u <= n_assets,
            adj@.len() == u,
            n_edges == edges@.len(),
            forall|k: int| 0 <= k < edges@.len() ==> (#[trigger] edges@[k]).valid(n_assets),
            forall|v: int|
                0 <= v < u ==> #[trigger] adj@[v]@ == edges_from(edges@, v, n_edges as int),
        decreases n_assets - u,
    {
        let mut row: Vec<GraphEdge> = Vec::new();
        let mut p: usize = 0;
        while p < n_edges
            invariant
                p <= n_edges,
                n_edges == edges@.len(),
                row@ == edges_from(edges@, u as int, p as int),
            decreases n_edges - p,
        {
            let e = edges[p];
            if e.from == u {
                row.push(GraphEdge {
                    to: e.to,
                    rate_ppm: e.rate_ppm,
                    fee_ppm: e.fee_ppm,
                    liquidity_ppm: e.liquidity_ppm,
                    protocol: e.protocol,
                    pool: e.pool,
                });
                proof {
                    assert(row@.last() == edges@[p as int].as_graph_edge());
                    assert(row@ == edges_from(edges@, u as int, p as int + 1));
                }
            }
            p = p + 1;
        }
        adj.push(row);
        u = u + 1;
    }
    let g = LiquidityGraph { n_assets, adj };
    proof {
        assert forall|v: int, j: int|
            0 <= v < g.adj@.len() && 0 <= j < g.adj@[v]@.len() implies (#[trigger] g.adj@[v]@[j]).edge_ok(
            g.n_assets,
        ) by {
            lemma_edges_from_sound(edges@, v, n_edges as int, j);
            let k2 = choose|k2: int|
                0 <= k2 < n_edges && g.adj@[v]@[j] == (#[trigger] edges@[k2].as_graph_edge())
                    && edges@[k2].from as int == v;
            assert(edges@[k2].valid(n_assets));
        }
        assert forall|k: int| 0 <= k < edges@.len() implies g.has_edge(
            (#[trigger] edges@[k]).from as int,
            edges@[k].as_graph_edge(),
        ) by {
            let f = edges@[k].from as int;
            assert(edges@[k].valid(n_assets));
            lemma_edges_from_complete(edges@, f, n_edges as int, k);
            assert(g.adj@[f]@ == edges_from(edges@, f, n_edges as int));
        }
    }
    g
}

/// Builds the graph from a pool snapshot. Out-of-range pools are dropped, and
/// their indices returned as warnings; every accepted pool contributes one
/// edge in each direction at its effective rate.
pub fn build_graph(n_assets: usize, pools: &Vec<PoolEdge>) -> (r: (LiquidityGraph, Vec<usize>))
    ensures
        r.0.wf(),
        r.0.rates_bounded(),
        r.0.n_assets == n_assets,
        r.1@ == rejected_pools(pools@, n_assets, pools@.len() as int),
        forall|v: int|
            0 <= v < n_assets ==> #[trigger] r.0.adj@[v]@ == edges_from(
                expand_pools(pools@, n_assets, pools@.len() as int),
                v,
                expand_pools(pools@, n_assets, pools@.len() as int).len() as int,
            ),
        forall|p: int|
            0 <= p < pools@.len() && (#[trigger] pools@[p]).accepted(n_assets)
                ==> r.0.has_edge(
                    pools@[p].asset_a as int,
                    pools@[p].rate_edge_a(p as usize).as_graph_edge(),
                ) && r.0.has_edge(
                    pools@[p].asset_b as int,
                    pools@[p].rate_edge_b(p as usize).as_graph_edge(),
                ),
        forall|u: int, j: int|
            0 <= u < r.0.adj@.len() && 0 <= j < r.0.adj@[u]@.len()
                ==> edge_explained_by_pool((#[trigger] r.0.adj@[u]@[j]), pools@, n_assets, u),
{
    let n_pools = pools.len();
    let mut expanded: Vec<RateEdge> = Vec::new();
    let mut warnings: Vec<usize> = Vec::new();
    let mut p: usize = 0;
    while p < n_pools
        invariant
            p <= n_pools,
            n_pools == pools@.len(),
            expanded@ == expand_pools(pools@, n_assets, p as int),
            warnings@ == rejected_pools(pools@, n_assets, p as int),
        decreases n_pools - p,
    {
        let pool = pools[p];
        let usable = pool.asset_a < n_assets && pool.asset_b < n_assets
            && 0 < pool.liquidity_ppm && pool.liquidity_ppm <= RATE_SCALE
            && pool.fee_ppm < RATE_SCALE;
        if usable {
            proof {
                assert((RATE_SCALE - pool.fee_ppm) * pool.liquidity_ppm
                    <= 1_000_000_000_000) by (nonlinear_arith)
                    requires
                        RATE_SCALE - pool.fee_ppm <= 1_000_000,
                        pool.liquidity_ppm <= 1_000_000,
                ;
            }
            let rate = (RATE_SCALE - pool.fee_ppm) * pool.liquidity_ppm / RATE_SCALE;
            proof {
                lemma_rate_applied_le((RATE_SCALE - pool.fee_ppm) as u64, pool.liquidity_ppm);
                assert(rate == pool.spec_effective_rate());
            }
            if rate >= 1 {
                proof {
                    assert(pools@[p as int].accepted(n_assets));
                }
                expanded.push(RateEdge {
                    from: pool.asset_a,
                    to: pool.asset_b,
                    rate_ppm: rate,
                    fee_ppm: pool.fee_ppm,
                    liquidity_ppm: pool.liquidity_ppm,
                    protocol: pool.protocol,
                    pool: p,
                });
                expanded.push(RateEdge {
                    from: pool.asset_b,
                    to: pool.asset_a,
                    rate_ppm: rate,
                    fee_ppm: pool.fee_ppm,
                    liquidity_ppm: pool.liquidity_ppm,
                    protocol: pool.protocol,
                    pool: p,
                });
                proof {
                    assert(expanded@[expanded@.len() - 2]
                        == pools@[p as int].rate_edge_a(p));
                    assert(expanded@[expanded@.len() - 1]
                        == pools@[p as int].rate_edge_b(p));
                    assert(expanded@ == expand_pools(pools@, n_assets, p as int + 1));
                }
            } else {
                warnings.push(p);
            }
        } else {
            warnings.push(p);
        }
        p = p + 1;
    }
    let ghost exp = expand_pools(pools@, n_assets, n_pools as int);
    proof {
        assert forall|k: int| 0 <= k < expanded@.len() implies (#[trigger] expanded@[k]).valid(
            n_assets,
        ) by {
            lemma_expand_sound(pools@, n_assets, n_pools as int, k);
        }
    }
    let g = from_rate_edges(n_assets, &expanded);
    proof {
        assert forall|q: int|
            0 <= q < pools@.len() && (#[trigger] pools@[q]).accepted(n_assets) implies g.has_edge(
            pools@[q].asset_a as int,
            pools@[q].rate_edge_a(q as usize).as_graph_edge(),
        ) && g.has_edge(pools@[q].asset_b as int, pools@[q].rate_edge_b(q as usize).as_graph_edge())
            by {
            lemma_expand_complete(pools@, n_assets, n_pools as int, q);
            let ia = choose|i: int|
                0 <= i < exp.len() && #[trigger] exp[i] == pools@[q].rate_edge_a(q as usize);
            let ib = choose|i: int|
                0 <= i < exp.len() && #[trigger] exp[i] == pools@[q].rate_edge_b(q as usize);
            assert(g.has_edge(exp[ia].from as int, exp[ia].as_graph_edge()));
            assert(g.has_edge(exp[ib].from as int, exp[ib].as_graph_edge()));
        }
        assert forall|u: int, j: int|
            0 <= u < g.adj@.len() && 0 <= j < g.adj@[u]@.len() implies ((#[trigger] g.adj@[u]@[j]).rate_ppm
            + g.adj@[u]@[j].fee_ppm <= RATE_SCALE) by {
            lemma_edges_from_sound(exp, u, exp.len() as int, j);
            let k2 = choose|k2: int|
                0 <= k2 < exp.len() && g.adj@[u]@[j] == (#[trigger] exp[k2].as_graph_edge())
                    && exp[k2].from as int == u;
            lemma_expand_sound(pools@, n_assets, n_pools as int, k2);
        }
        assert forall|u: int, j: int|
            0 <= u < g.adj@.len() && 0 <= j < g.adj@[u]@.len() implies edge_explained_by_pool(
            (#[trigger] g.adj@[u]@[j]),
            pools@,
            n_assets,
            u,
        ) by {
            lemma_edges_from_sound(exp, u, exp.len() as int, j);
            let k2 = choose|k2: int|
                0 <= k2 < exp.len() && g.adj@[u]@[j] == (#[trigger] exp[k2].as_graph_edge())
                    && exp[k2].from as int == u;
            lemma_expand_sound(pools@, n_assets, n_pools as int, k2);
            let q = choose|q: int|
                0 <= q < pools@.len() && (#[trigger] pools@[q]).accepted(n_assets)
                    && (exp[k2] == pools@[q].rate_edge_a(q as usize)
                        || exp[k2] == pools@[q].rate_edge_b(q as usize));
            assert(0 <= q < pools@.len() && pools@[q].accepted(n_assets)
                && (g.adj@[u]@[j] == pools@[q].rate_edge_a(q as usize).as_graph_edge()
                        && pools@[q].asset_a as int == u
                    || g.adj@[u]@[j] == pools@[q].rate_edge_b(q as usize).as_graph_edge()
                        && pools@[q].asset_b as int == u));
        }
    }
    (g, warnings)
}

} // verus!
