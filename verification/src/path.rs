//! Best-route search over the liquidity graph.
//!
//! A Bellman–Ford style relaxation over hop counts finds, for each hop budget
//! up to `max_hops`, the reachable assets together with the best compounded
//! output seen for them. Maximizing the compounded product directly is the
//! fixed-point counterpart of minimizing a path's summed `-ln(rate)` weights,
//! with no floating point involved. The chosen route is rebuilt from
//! predecessor links and its amounts recomputed hop by hop, so the returned
//! output is exactly the per-hop compounding of the input and no chain within
//! the hop budget beats it. Ties on output are broken towards higher
//! aggregate liquidity, then fewer hops.

use vstd::prelude::*;
use crate::graph::{GraphEdge, LiquidityGraph};
use crate::rate::{
    RATE_SCALE, apply_rate_bounded, compound_int, lemma_compound_push,
    lemma_compound_pointwise_le, rate_applied,
};
use vstd::arithmetic::div_mod::{lemma_div_is_ordered, lemma_div_multiples_vanish, lemma_div_pos_is_pos};
use vstd::arithmetic::mul::{lemma_mul_inequality, lemma_mul_nonnegative, lemma_mul_upper_bound};

verus! {

/// One hop of a route: the asset it leaves and the edge it takes.
#[derive(Clone, Copy, Debug)]
pub struct Hop {
    pub from: usize,
    pub edge: GraphEdge,
}

/// A multi-hop conversion route together with its compounded amounts.
#[derive(Clone, Debug)]
pub struct Route {
    /// The assets visited, starting at the source and ending at the
    /// destination.
    pub assets: Vec<usize>,
    /// `hops[i]` leads from `assets[i]` to `assets[i + 1]`.
    pub hops: Vec<Hop>,
    pub input_amount: u64,
    /// The input amount run through every hop's effective rate in order.
    pub output_amount: u64,
    /// Relative shortfall of the output against a fee-only conversion, ppm.
    pub price_impact_ppm: u64,
}

pub open spec fn hop_rates(hops: Seq<Hop>) -> Seq<u64> {
    hops.map_values(|h: Hop| h.edge.rate_ppm)
}

/// The per-hop rates of a conversion that pays each hop's fee but suffers no
/// liquidity discount: the reference for price impact.
pub open spec fn fee_only_rates(hops: Seq<Hop>) -> Seq<u64> {
    hops.map_values(|h: Hop| (RATE_SCALE - h.edge.fee_ppm) as u64)
}

/// The hops chain through the asset list, each along a real edge of `g`.
pub open spec fn chain_ok(g: LiquidityGraph, assets: Seq<usize>, hops: Seq<Hop>) -> bool {
    &&& assets.len() == hops.len() + 1
    &&& forall|i: int|
        0 <= i < hops.len() ==> {
            &&& (#[trigger] hops[i]).from == assets[i]
            &&& hops[i].edge.to == assets[i + 1]
            &&& g.has_edge(assets[i] as int, hops[i].edge)
        }
}

/// The route's hops chain through its asset list over real edges of `g`.
pub open spec fn route_wf(g: LiquidityGraph, r: Route) -> bool {
    chain_ok(g, r.assets@, r.hops@)
}

/// Relative shortfall, in ppm, of the compounded output against the fee-only
/// reference output.
pub open spec fn price_impact(input: u64, hops: Seq<Hop>) -> int {
    let out = compound_int(input as int, hop_rates(hops));
    let reference = compound_int(input as int, fee_only_rates(hops));
    if reference > 0 {
        ((reference - out) * (RATE_SCALE as int)) / reference
    } else {
        0
    }
}

/// The route's amounts are exactly the per-hop compounding of its input, and
/// its impact the relative shortfall against fee-only conversion.
pub open spec fn route_amounts_ok(r: Route) -> bool {
    &&& r.output_amount == compound_int(r.input_amount as int, hop_rates(r.hops@))
    &&& r.price_impact_ppm == price_impact(r.input_amount, r.hops@)
}

/// Step `i` of the walk `vs` crosses a real edge of `g`.
pub open spec fn path_step(g: LiquidityGraph, vs: Seq<usize>, i: int) -> bool {
    g.connected(vs[i] as int, vs[i + 1] as int)
}

/// `vs` walks existing edges of `g` from its first to its last asset.
pub open spec fn is_path(g: LiquidityGraph, vs: Seq<usize>) -> bool {
    &&& vs.len() >= 1
    &&& forall|i: int| 0 <= i < vs.len() - 1 ==> #[trigger] path_step(g, vs, i)
}

/// Some walk of at most `max_hops` edges leads from `source` to
/// `destination`.
pub open spec fn path_exists(
    g: LiquidityGraph,
    source: usize,
    destination: usize,
    max_hops: usize,
) -> bool {
    exists|vs: Seq<usize>|
        #[trigger] is_path(g, vs) && vs.len() >= 1 && vs[0] == source && vs.last() == destination
            && vs.len() - 1 <= max_hops
}

/// One relaxation cell: best output amount seen and the aggregate liquidity
/// of the walk that produced it (the tie breaker).
#[derive(Clone, Copy, Debug)]
struct DpCell {
    amount: u64,
    liq: u64,
}

/// A predecessor entry at level `h` for asset `v` records a real edge into
/// `v` whose tail was reached at level `h - 1`.
spec fn pred_entry_ok(
    g: LiquidityGraph,
    prev_row: Seq<Option<DpCell>>,
    v: int,
    p: Option<Hop>,
) -> bool {
    match p {
        Some(hop) => {
            &&& hop.from < g.n_assets
            &&& (hop.from as int) < prev_row.len()
            &&& g.has_edge(hop.from as int, hop.edge)
            &&& hop.edge.to as int == v
            &&& prev_row[hop.from as int].is_some()
        },
        None => true,
    }
}

/// A chain of hops leaving `source` in `g`.
pub open spec fn chain_from(
    g: LiquidityGraph,
    source: usize,
    assets: Seq<usize>,
    hops: Seq<Hop>,
) -> bool {
    &&& chain_ok(g, assets, hops)
    &&& assets.len() >= 1
    &&& assets[0] == source
}

/// The amount held in a relaxation cell; empty cells count below every real
/// amount.
spec fn cell_amount(c: Option<DpCell>) -> int {
    match c {
        Some(cc) => cc.amount as int,
        None => -1,
    }
}

/// The saturating liquidity total: `acc`, then each hop's liquidity depth
/// added in order, capped at the largest representable value.
pub open spec fn liq_fold(acc: int, hops: Seq<Hop>) -> int
    decreases hops.len(),
{
    if hops.len() == 0 {
        acc
    } else {
        liq_fold(sat_liq_add(acc, hops[0].edge.liquidity_ppm), hops.drop_first())
    }
}

/// Saturating addition of a liquidity depth.
pub open spec fn sat_liq_add(acc: int, liq: u64) -> int {
    if acc + liq > u64::MAX as int {
        u64::MAX as int
    } else {
        acc + liq
    }
}

/// A chain's aggregate liquidity: the sum of its hops' liquidity depths,
/// saturating at the largest representable value.
pub open spec fn chain_liquidity(hops: Seq<Hop>) -> int {
    liq_fold(0, hops)
}

/// The liquidity held in a relaxation cell.
spec fn cell_liq(c: Option<DpCell>) -> int {
    match c {
        Some(cc) => cc.liq as int,
        None => -1,
    }
}

/// A recorded predecessor carries the exact arithmetic of its relaxation:
/// the cell's amount is the previous level's amount pushed through the
/// recorded edge, and its liquidity the previous level's plus the edge's.
spec fn link_ok(prev_row: Seq<Option<DpCell>>, cell: Option<DpCell>, p: Option<Hop>) -> bool {
    match p {
        Some(hop) => match cell {
            Some(c) => {
                &&& (hop.from as int) < prev_row.len()
                &&& match prev_row[hop.from as int] {
                    Some(pc) => c.amount == rate_applied(pc.amount, hop.edge.rate_ppm)
                        && c.liq as int == sat_liq_add(pc.liq as int, hop.edge.liquidity_ppm),
                    None => false,
                }
            },
            None => false,
        },
        None => true,
    }
}

/// Accumulating one more hop's liquidity at the end of the fold.
proof fn lemma_liq_fold_push(acc: int, hops: Seq<Hop>, hop: Hop)
    ensures
        liq_fold(acc, hops.push(hop)) == sat_liq_add(liq_fold(acc, hops), hop.edge.liquidity_ppm),
    decreases hops.len(),
{
    if hops.len() == 0 {
        assert(hops.push(hop)[0] == hop);
        assert(hops.push(hop).drop_first() =~= Seq::<Hop>::empty());
        assert(liq_fold(sat_liq_add(acc, hop.edge.liquidity_ppm), Seq::<Hop>::empty())
            == sat_liq_add(acc, hop.edge.liquidity_ppm));
    } else {
        assert(hops.push(hop)[0] == hops[0]);
        assert(hops.push(hop).drop_first() =~= hops.drop_first().push(hop));
        lemma_liq_fold_push(sat_liq_add(acc, hops[0].edge.liquidity_ppm), hops.drop_first(), hop);
    }
}

/// Extending a chain by one edge out of its last asset.
proof fn lemma_chain_extend(
    g: LiquidityGraph,
    source: usize,
    assets: Seq<usize>,
    hops: Seq<Hop>,
    hop: Hop,
)
    requires
        chain_from(g, source, assets, hops),
        assets.last() == hop.from,
        g.has_edge(hop.from as int, hop.edge),
    ensures
        chain_from(g, source, assets.push(hop.edge.to), hops.push(hop)),
        assets.push(hop.edge.to).last() == hop.edge.to,
{
    let a2 = assets.push(hop.edge.to);
    let h2 = hops.push(hop);
    assert forall|i: int| 0 <= i < h2.len() implies {
        &&& (#[trigger] h2[i]).from == a2[i]
        &&& h2[i].edge.to == a2[i + 1]
        &&& g.has_edge(a2[i] as int, h2[i].edge)
    } by {
        if i < hops.len() {
            assert(h2[i] == hops[i]);
            assert(a2[i] == assets[i]);
            assert(a2[i + 1] == assets[i + 1]);
        } else {
            assert(h2[i] == hop);
            assert(a2[i] == assets[i]);
            assert(assets[i] == assets.last());
            assert(a2[i + 1] == hop.edge.to);
        }
    }
    assert(a2[0] == assets[0]);
}

/// `(assets, hops)` is a chain from the source recording exactly what this
/// relaxation cell holds: its length, endpoint, compounded amount and
/// aggregate liquidity.
spec fn cell_achieved(
    g: LiquidityGraph,
    source: usize,
    input: u64,
    h: int,
    v: int,
    c: DpCell,
    assets: Seq<usize>,
    hops: Seq<Hop>,
) -> bool {
    &&& chain_from(g, source, assets, hops)
    &&& hops.len() == h
    &&& assets.last() as int == v
    &&& compound_int(input as int, hop_rates(hops)) == c.amount as int
    &&& chain_liquidity(hops) == c.liq as int
}

/// Every filled relaxation cell is achieved by a real chain.
spec fn cell_witnessed(
    g: LiquidityGraph,
    source: usize,
    input: u64,
    h: int,
    v: int,
    cell: Option<DpCell>,
) -> bool {
    match cell {
        Some(c) => exists|assets: Seq<usize>, hops: Seq<Hop>|
            #[trigger] cell_achieved(g, source, input, h, v, c, assets, hops),
        None => true,
    }
}

/// Dropping the last hop of a chain leaves a chain.
proof fn lemma_chain_prefix(g: LiquidityGraph, source: usize, assets: Seq<usize>, hops: Seq<Hop>)
    requires
        chain_from(g, source, assets, hops),
        hops.len() >= 1,
    ensures
        chain_from(g, source, assets.drop_last(), hops.drop_last()),
        assets.drop_last().last() == hops.last().from,
{
    let pa = assets.drop_last();
    let ph = hops.drop_last();
    assert forall|i: int| 0 <= i < ph.len() implies {
        &&& (#[trigger] ph[i]).from == pa[i]
        &&& ph[i].edge.to == pa[i + 1]
        &&& g.has_edge(pa[i] as int, ph[i].edge)
    } by {
        assert(ph[i] == hops[i]);
        assert(pa[i] == assets[i]);
        assert(pa[i + 1] == assets[i + 1]);
    }
    assert(pa[0] == assets[0]);
    assert(pa.last() == assets[assets.len() - 2]);
    assert(hops.last().from == assets[hops.len() - 1]);
}

/// The last asset of a chain out of a real source is a real asset.
proof fn lemma_chain_last_in_range(
    g: LiquidityGraph,
    source: usize,
    assets: Seq<usize>,
    hops: Seq<Hop>,
)
    requires
        g.wf(),
        source < g.n_assets,
        chain_from(g, source, assets, hops),
    ensures
        assets.last() < g.n_assets,
{
    if hops.len() == 0 {
        assert(assets.last() == assets[0]);
    } else {
        let i = hops.len() - 1;
        let e = hops[i].edge;
        assert(g.has_edge(assets[i] as int, e));
        let j = choose|j: int|
            0 <= j < g.adj@[assets[i] as int]@.len() && #[trigger] g.adj@[assets[i] as int]@[j]
                == e;
        assert(g.adj@[assets[i] as int]@[j].edge_ok(g.n_assets));
        assert(e.to == assets[i + 1]);
        assert(assets.last() == assets[i + 1]);
    }
}

/// Applying the hops collected backwards, latest collected first.
spec fn rev_chain_amount(amount: int, rev: Seq<Hop>) -> int
    decreases rev.len(),
{
    if rev.len() == 0 {
        amount
    } else {
        rev_chain_amount(
            (amount * rev.last().edge.rate_ppm) / (RATE_SCALE as int),
            rev.drop_last(),
        )
    }
}

/// Accumulating the collected hops' liquidity backwards, latest first.
spec fn rev_liq_fold(acc: int, rev: Seq<Hop>) -> int
    decreases rev.len(),
{
    if rev.len() == 0 {
        acc
    } else {
        rev_liq_fold(sat_liq_add(acc, rev.last().edge.liquidity_ppm), rev.drop_last())
    }
}

/// A reversed hop list folds to the same aggregate liquidity forwards.
proof fn lemma_rev_liq_matches(acc: int, rev: Seq<Hop>, hops: Seq<Hop>)
    requires
        hops.len() == rev.len(),
        forall|k: int| 0 <= k < hops.len() ==> #[trigger] hops[k] == rev[rev.len() - 1 - k],
    ensures
        liq_fold(acc, hops) == rev_liq_fold(acc, rev),
    decreases rev.len(),
{
    if rev.len() > 0 {
        assert(hops[0] == rev[rev.len() - 1]);
        assert(hops[0] == rev.last());
        assert forall|k: int| 0 <= k < hops.drop_first().len() implies #[trigger] hops.drop_first(
        )[k] == rev.drop_last()[rev.drop_last().len() - 1 - k] by {
            assert(hops.drop_first()[k] == hops[k + 1]);
            assert(hops[k + 1] == rev[rev.len() - 1 - (k + 1)]);
            assert(rev.drop_last()[rev.drop_last().len() - 1 - k] == rev[rev.len() - 2 - k]);
        }
        lemma_rev_liq_matches(
            sat_liq_add(acc, rev.last().edge.liquidity_ppm),
            rev.drop_last(),
            hops.drop_first(),
        );
    }
}

/// A reversed hop list compounds to the same amount forwards.
proof fn lemma_rev_chain_matches(amount: int, rev: Seq<Hop>, hops: Seq<Hop>)
    requires
        hops.len() == rev.len(),
        forall|k: int| 0 <= k < hops.len() ==> #[trigger] hops[k] == rev[rev.len() - 1 - k],
    ensures
        compound_int(amount, hop_rates(hops)) == rev_chain_amount(amount, rev),
    decreases rev.len(),
{
    if rev.len() > 0 {
        assert(hops[0] == rev[rev.len() - 1]);
        assert(hops[0] == rev.last());
        assert(hop_rates(hops)[0] == hops[0].edge.rate_ppm);
        assert(hop_rates(hops).drop_first() =~= hop_rates(hops.drop_first()));
        assert forall|k: int| 0 <= k < hops.drop_first().len() implies #[trigger] hops.drop_first(
        )[k] == rev.drop_last()[rev.drop_last().len() - 1 - k] by {
            assert(hops.drop_first()[k] == hops[k + 1]);
            assert(hops[k + 1] == rev[rev.len() - 1 - (k + 1)]);
            assert(rev.drop_last()[rev.drop_last().len() - 1 - k] == rev[rev.len() - 2 - k]);
        }
        lemma_rev_chain_matches(
            (amount * rev.last().edge.rate_ppm) / (RATE_SCALE as int),
            rev.drop_last(),
            hops.drop_first(),
        );
    }
}

/// Dropping the last vertex of a path leaves a path.
proof fn lemma_is_path_prefix(g: LiquidityGraph, vs: Seq<usize>)
    requires
        is_path(g, vs),
        vs.len() >= 2,
    ensures
        is_path(g, vs.drop_last()),
        vs.drop_last()[0] == vs[0],
        vs.drop_last().last() == vs[vs.len() - 2],
{
    let p = vs.drop_last();
    assert forall|i: int| 0 <= i < p.len() - 1 implies #[trigger] path_step(g, p, i) by {
        assert(p[i] == vs[i]);
        assert(p[i + 1] == vs[i + 1]);
        assert(path_step(g, vs, i));
    }
}

/// Every vertex of a path in a well-formed graph is a real asset, provided
/// the first one is.
proof fn lemma_path_vertices_in_range(g: LiquidityGraph, vs: Seq<usize>, i: int)
    requires
        g.wf(),
        is_path(g, vs),
        vs[0] < g.n_assets,
        0 <= i < vs.len(),
    ensures
        vs[i] < g.n_assets,
    decreases i,
{
    if i > 0 {
        assert(path_step(g, vs, i - 1));
        assert(g.connected(vs[i - 1] as int, vs[i] as int));
        let e = choose|e: GraphEdge| g.has_edge(vs[i - 1] as int, e) && e.to as int == vs[i] as int;
        let j = choose|j: int|
            0 <= j < g.adj@[vs[i - 1] as int]@.len() && #[trigger] g.adj@[vs[i - 1] as int]@[j]
                == e;
        assert(g.adj@[vs[i - 1] as int]@[j].edge_ok(g.n_assets));
    }
}

/// Finds the best route from `source` to `destination` using at most
/// `max_hops` hops. Returns `None` exactly when no such walk exists; a
/// returned route is a real chain of graph edges whose output is the per-hop
/// compounding of `input_amount`, no other chain within the hop budget
/// yields more, and the price impact is the relative shortfall against
/// fee-only conversion. Ties on output prefer higher aggregate liquidity,
/// then fewer hops: whenever a tied chain is shorter than the returned
/// route, the route out-liquids a tied chain of that shorter length.
#[verifier::rlimit(50)]
pub fn find_route(
    g: &LiquidityGraph,
    source: usize,
    destination: usize,
    input_amount: u64,
    max_hops: usize,
) -> (r: Option<Route>)
    requires
        g.wf(),
        g.rates_bounded(),
        source < g.n_assets,
        destination < g.n_assets,
        max_hops < usize::MAX,
    ensures
        match r {
            Some(rt) => {
                &&& route_wf(*g, rt)
                &&& route_amounts_ok(rt)
                &&& rt.assets@.len() >= 1
                &&& rt.assets@[0] == source
                &&& rt.assets@.last() == destination
                &&& rt.hops@.len() <= max_hops
                &&& rt.input_amount == input_amount
                &&& forall|assets2: Seq<usize>, hops2: Seq<Hop>|
                    #[trigger] chain_from(*g, source, assets2, hops2) && assets2.last()
                        == destination && hops2.len() <= max_hops ==> compound_int(
                        input_amount as int,
                        hop_rates(hops2),
                    ) <= rt.output_amount
                &&& forall|assetsx: Seq<usize>, hopsx: Seq<Hop>|
                    #[trigger] chain_from(*g, source, assetsx, hopsx) && assetsx.last()
                        == destination && hopsx.len() <= max_hops && hopsx.len() < rt.hops@.len()
                        && compound_int(input_amount as int, hop_rates(hopsx)) == rt.output_amount
                        ==> exists|assetsz: Seq<usize>, hopsz: Seq<Hop>|
                            #[trigger] chain_from(*g, source, assetsz, hopsz) && assetsz.last()
                                == destination && hopsz.len() == hopsx.len() && compound_int(
                                input_amount as int,
                                hop_rates(hopsz),
                            ) == rt.output_amount && chain_liquidity(hopsz) < chain_liquidity(
                                rt.hops@,
                            )
            },
            None => !path_exists(*g, source, destination, max_hops),
        },
{
    let n = g.n_assets;
    // Level 0: only the source is reached.
    let mut best0: Vec<Option<DpCell>> = Vec::new();
    let mut v0: usize = 0;
    while v0 < n
        invariant
            v0 <= n,
            best0@.len() == v0,
            forall|v: int|
                0 <= v < v0 ==> (#[trigger] best0@[v]) == (if v == source as int {
                    Some(DpCell { amount: input_amount, liq: 0 })
                } else {
                    None::<DpCell>
                }),
        decreases n - v0,
    {
        if v0 == source {
            best0.push(Some(DpCell { amount: input_amount, liq: 0 }));
        } else {
            best0.push(None);
        }
        v0 = v0 + 1;
    }
    let mut pred0: Vec<Option<Hop>> = Vec::new();
    let mut v1: usize = 0;
    while v1 < n
        invariant
            v1 <= n,
            pred0@.len() == v1,
            forall|v: int| 0 <= v < v1 ==> (#[trigger] pred0@[v]).is_none(),
        decreases n - v1,
    {
        pred0.push(None);
        v1 = v1 + 1;
    }
    let mut levels_best: Vec<Vec<Option<DpCell>>> = Vec::new();
    let mut levels_pred: Vec<Vec<Option<Hop>>> = Vec::new();
    levels_best.push(best0);
    levels_pred.push(pred0);
    proof {
        assert forall|assets2: Seq<usize>, hops2: Seq<Hop>|
            #[trigger] chain_from(*g, source, assets2, hops2) && hops2.len() < 1
                implies levels_best@[hops2.len() as int]@[assets2.last() as int].is_some()
            && compound_int(input_amount as int, hop_rates(hops2)) <= cell_amount(
            levels_best@[hops2.len() as int]@[assets2.last() as int],
        ) by {
            assert(assets2.len() == 1);
            assert(assets2.last() == assets2[0]);
            assert(hop_rates(hops2).len() == 0);
            assert(compound_int(input_amount as int, hop_rates(hops2)) == input_amount as int);
        }
        let a0 = seq![source];
        let h0 = Seq::<Hop>::empty();
        assert(a0.len() == 1 && a0[0] == source);
        assert(chain_from(*g, source, a0, h0));
        assert(hop_rates(h0).len() == 0);
        assert(compound_int(input_amount as int, hop_rates(h0)) == input_amount as int);
        assert(chain_liquidity(h0) == 0);
        assert(a0.last() == source);
        assert(cell_achieved(
            *g,
            source,
            input_amount,
            0,
            source as int,
            DpCell { amount: input_amount, liq: 0 },
            a0,
            h0,
        ));
        assert forall|v: int| 0 <= v < n implies cell_witnessed(
            *g,
            source,
            input_amount,
            0,
            v,
            #[trigger] levels_best@[0]@[v],
        ) by {}
    }
    let mut h: usize = 1;
    while h <= max_hops
        invariant
            g.wf(),
            g.rates_bounded(),
            n == g.n_assets,
            source < n,
            destination < n,
            max_hops < usize::MAX,
            1 <= h <= max_hops + 1,
            levels_best@.len() == h,
            levels_pred@.len() == h,
            forall|h2: int| 0 <= h2 < h ==> (#[trigger] levels_best@[h2])@.len() == n,
            forall|h2: int| 0 <= h2 < h ==> (#[trigger] levels_pred@[h2])@.len() == n,
            forall|v: int|
                0 <= v < n ==> ((#[trigger] levels_best@[0]@[v]).is_some() <==> v == source as int),
            levels_best@[0]@[source as int] == Some(DpCell { amount: input_amount, liq: 0 }),
            forall|h2: int, v: int|
                1 <= h2 < h && 0 <= v < n ==> pred_entry_ok(
                    *g,
                    levels_best@[h2 - 1]@,
                    v,
                    #[trigger] levels_pred@[h2]@[v],
                ),
            forall|h2: int, v: int|
                1 <= h2 < h && 0 <= v < n ==> link_ok(
                    levels_best@[h2 - 1]@,
                    levels_best@[h2]@[v],
                    #[trigger] levels_pred@[h2]@[v],
                ),
            forall|assets2: Seq<usize>, hops2: Seq<Hop>|
                #[trigger] chain_from(*g, source, assets2, hops2) && hops2.len() < h
                    ==> levels_best@[hops2.len() as int]@[assets2.last() as int].is_some()
                        && compound_int(input_amount as int, hop_rates(hops2)) <= cell_amount(
                        levels_best@[hops2.len() as int]@[assets2.last() as int],
                    ),
            forall|h2: int, v: int|
                1 <= h2 < h && 0 <= v < n && (#[trigger] levels_best@[h2]@[v]).is_some()
                    ==> levels_pred@[h2]@[v].is_some(),
            forall|vs: Seq<usize>|
                #[trigger] is_path(*g, vs) && vs.len() >= 1 && vs[0] == source && vs.len() <= h
                    ==> levels_best@[vs.len() - 1]@[vs.last() as int].is_some(),
            forall|h2: int, v: int|
                0 <= h2 < h && 0 <= v < n ==> cell_witnessed(
                    *g,
                    source,
                    input_amount,
                    h2,
                    v,
                    #[trigger] levels_best@[h2]@[v],
                ),
        decreases max_hops + 1 - h,
    {
        let mut cur: Vec<Option<DpCell>> = Vec::new();
        let mut cur_pred: Vec<Option<Hop>> = Vec::new();
        let mut v2: usize = 0;
        while v2 < n
            invariant
                v2 <= n,
                cur@.len() == v2,
                cur_pred@.len() == v2,
                forall|v: int| 0 <= v < v2 ==> (#[trigger] cur@[v]).is_none(),
                forall|v: int| 0 <= v < v2 ==> (#[trigger] cur_pred@[v]).is_none(),
            decreases n - v2,
        {
            cur.push(None);
            cur_pred.push(None);
            v2 = v2 + 1;
        }
        proof {
            assert forall|v: int| 0 <= v < n implies cell_witnessed(
                *g,
                source,
                input_amount,
                h - 1,
                v,
                #[trigger] levels_best@[h - 1]@[v],
            ) by {
                assert(0 <= h - 1 < h);
            }
        }
        let mut u: usize = 0;
        while u < n
            invariant
                g.wf(),
                g.rates_bounded(),
                n == g.n_assets,
                u <= n,
                1 <= h,
                levels_best@.len() == h,
                (#[trigger] levels_best@[h - 1])@.len() == n,
                cur@.len() == n,
                cur_pred@.len() == n,
                forall|v: int|
                    0 <= v < n ==> pred_entry_ok(
                        *g,
                        levels_best@[h - 1]@,
                        v,
                        #[trigger] cur_pred@[v],
                    ),
                forall|v: int|
                    0 <= v < n && (#[trigger] cur@[v]).is_some() ==> cur_pred@[v].is_some(),
                forall|v: int|
                    0 <= v < n ==> link_ok(levels_best@[h - 1]@, cur@[v], #[trigger] cur_pred@[v]),
                forall|v: int|
                    0 <= v < n ==> cell_witnessed(
                        *g,
                        source,
                        input_amount,
                        h - 1,
                        v,
                        #[trigger] levels_best@[h - 1]@[v],
                    ),
                forall|v: int|
                    0 <= v < n ==> cell_witnessed(
                        *g,
                        source,
                        input_amount,
                        h as int,
                        v,
                        #[trigger] cur@[v],
                    ),
                forall|u2: int, j2: int|
                    0 <= u2 < u && 0 <= j2 < g.adj@[u2]@.len() && levels_best@[h - 1]@[u2].is_some()
                        ==> cur@[(#[trigger] g.adj@[u2]@[j2]).to as int].is_some()
                            && (cell_amount(levels_best@[h - 1]@[u2]) * g.adj@[u2]@[j2].rate_ppm)
                                / (RATE_SCALE as int) <= cell_amount(
                                cur@[g.adj@[u2]@[j2].to as int],
                            ),
            decreases n - u,
        {
            let reached = levels_best[h - 1][u];
            match reached {
                Some(cell) => {
                    let mut j: usize = 0;
                    while j < g.adj[u].len()
                        invariant
                            g.wf(),
                            g.rates_bounded(),
                            n == g.n_assets,
                            u < n,
                            1 <= h,
                            j <= g.adj@[u as int]@.len(),
                            levels_best@.len() == h,
                            (#[trigger] levels_best@[h - 1])@.len() == n,
                            levels_best@[h - 1]@[u as int].is_some(),
                            cell == levels_best@[h - 1]@[u as int].unwrap(),
                            cur@.len() == n,
                            cur_pred@.len() == n,
                            forall|v: int|
                                0 <= v < n ==> pred_entry_ok(
                                    *g,
                                    levels_best@[h - 1]@,
                                    v,
                                    #[trigger] cur_pred@[v],
                                ),
                            forall|v: int|
                                0 <= v < n && (#[trigger] cur@[v]).is_some()
                                    ==> cur_pred@[v].is_some(),
                            forall|v: int|
                                0 <= v < n ==> link_ok(
                                    levels_best@[h - 1]@,
                                    cur@[v],
                                    #[trigger] cur_pred@[v],
                                ),
                            forall|v: int|
                                0 <= v < n ==> cell_witnessed(
                                    *g,
                                    source,
                                    input_amount,
                                    h - 1,
                                    v,
                                    #[trigger] levels_best@[h - 1]@[v],
                                ),
                            forall|v: int|
                                0 <= v < n ==> cell_witnessed(
                                    *g,
                                    source,
                                    input_amount,
                                    h as int,
                                    v,
                                    #[trigger] cur@[v],
                                ),
                            forall|u2: int, j2: int|
                                0 <= u2 < u && 0 <= j2 < g.adj@[u2]@.len() && levels_best@[h
                                    - 1]@[u2].is_some() ==> cur@[(#[trigger] g.adj@[u2]@[j2]).to
                                    as int].is_some()
                                    && (cell_amount(levels_best@[h - 1]@[u2])
                                        * g.adj@[u2]@[j2].rate_ppm) / (RATE_SCALE as int)
                                        <= cell_amount(cur@[g.adj@[u2]@[j2].to as int]),
                            forall|j2: int|
                                0 <= j2 < j ==> cur@[(#[trigger] g.adj@[u as int]@[j2]).to
                                    as int].is_some() && (cell.amount as int
                                    * g.adj@[u as int]@[j2].rate_ppm) / (RATE_SCALE as int)
                                    <= cell_amount(cur@[g.adj@[u as int]@[j2].to as int]),
                        decreases g.adj@[u as int]@.len() - j,
                    {
                        let e = g.adj[u][j];
                        proof {
                            assert(e.edge_ok(g.n_assets));
                            assert(e.rate_ppm + e.fee_ppm <= RATE_SCALE);
                        }
                        let na = apply_rate_bounded(cell.amount, e.rate_ppm);
                        let nl = if cell.liq <= u64::MAX - e.liquidity_ppm {
                            cell.liq + e.liquidity_ppm
                        } else {
                            u64::MAX
                        };
                        let existing = cur[e.to];
                        let better = match existing {
                            None => true,
                            Some(c2) => na > c2.amount || (na == c2.amount && nl > c2.liq),
                        };
                        if better {
                            let ghost cur0 = cur@;
                            let ghost cur_pred0 = cur_pred@;
                            cur[e.to] = Some(DpCell { amount: na, liq: nl });
                            cur_pred[e.to] = Some(Hop { from: u, edge: e });
                            proof {
                                assert(cur@ == cur0.update(
                                    e.to as int,
                                    Some(DpCell { amount: na, liq: nl }),
                                ));
                                assert(cur_pred@ == cur_pred0.update(
                                    e.to as int,
                                    Some(Hop { from: u, edge: e }),
                                ));
                                assert(g.has_edge(u as int, e)) by {
                                    assert(g.adj@[u as int]@[j as int] == e);
                                    assert(g.adj@[u as int]@.contains(e));
                                }
                                assert forall|v: int| 0 <= v < n implies pred_entry_ok(
                                    *g,
                                    levels_best@[h - 1]@,
                                    v,
                                    #[trigger] cur_pred@[v],
                                ) by {
                                    if v == e.to as int {
                                    } else {
                                        assert(cur_pred@[v] == cur_pred0[v]);
                                    }
                                }
                                assert forall|v: int|
                                    0 <= v < n && (#[trigger] cur@[v]).is_some()
                                        implies cur_pred@[v].is_some() by {
                                    if v == e.to as int {
                                    } else {
                                        assert(cur@[v] == cur0[v]);
                                        assert(cur_pred@[v] == cur_pred0[v]);
                                    }
                                }
                                // The updated cell never drops below what any
                                // earlier relaxation established.
                                assert(cell_amount(cur0[e.to as int]) <= na as int);
                                assert forall|v: int| 0 <= v < n implies link_ok(
                                    levels_best@[h - 1]@,
                                    cur@[v],
                                    #[trigger] cur_pred@[v],
                                ) by {
                                    if v == e.to as int {
                                        assert(levels_best@[h - 1]@[u as int].is_some());
                                    } else {
                                        assert(cur@[v] == cur0[v]);
                                        assert(cur_pred@[v] == cur_pred0[v]);
                                    }
                                }
                                assert forall|v: int| 0 <= v < n implies cell_witnessed(
                                    *g,
                                    source,
                                    input_amount,
                                    h as int,
                                    v,
                                    #[trigger] cur@[v],
                                ) by {
                                    if v == e.to as int {
                                        // Extend the previous level's witness
                                        // chain by the relaxed edge.
                                        assert(cell_witnessed(
                                            *g,
                                            source,
                                            input_amount,
                                            h - 1,
                                            u as int,
                                            levels_best@[h - 1]@[u as int],
                                        ));
                                        let (aw, hw) = choose|aw: Seq<usize>, hw: Seq<Hop>|
                                            #[trigger] cell_achieved(
                                                *g,
                                                source,
                                                input_amount,
                                                h - 1,
                                                u as int,
                                                cell,
                                                aw,
                                                hw,
                                            );
                                        let hop = Hop { from: u, edge: e };
                                        assert(aw.last() == u);
                                        lemma_chain_extend(*g, source, aw, hw, hop);
                                        assert(hop_rates(hw).push(e.rate_ppm) =~= hop_rates(
                                            hw.push(hop),
                                        ));
                                        lemma_compound_push(
                                            input_amount as int,
                                            hop_rates(hw),
                                            e.rate_ppm,
                                        );
                                        lemma_liq_fold_push(0, hw, hop);
                                        assert(na as int == (cell.amount * e.rate_ppm) / (
                                        RATE_SCALE as int));
                                        assert(nl as int == sat_liq_add(
                                            cell.liq as int,
                                            e.liquidity_ppm,
                                        ));
                                        assert(cell_achieved(
                                            *g,
                                            source,
                                            input_amount,
                                            h as int,
                                            e.to as int,
                                            DpCell { amount: na, liq: nl },
                                            aw.push(e.to),
                                            hw.push(hop),
                                        ));
                                    } else {
                                        assert(cur@[v] == cur0[v]);
                                    }
                                }
                                assert forall|u2: int, j2: int|
                                    0 <= u2 < u && 0 <= j2 < g.adj@[u2]@.len() && levels_best@[h
                                        - 1]@[u2].is_some() implies cur@[(
                                    #[trigger] g.adj@[u2]@[j2]).to as int].is_some() && (
                                    cell_amount(levels_best@[h - 1]@[u2])
                                        * g.adj@[u2]@[j2].rate_ppm) / (RATE_SCALE as int)
                                    <= cell_amount(cur@[g.adj@[u2]@[j2].to as int]) by {
                                    let t = g.adj@[u2]@[j2].to as int;
                                    if t == e.to as int {
                                        assert(cell_amount(cur@[t]) == na as int);
                                    } else {
                                        assert(cur@[t] == cur0[t]);
                                    }
                                }
                                assert forall|j2: int| 0 <= j2 < j + 1 implies cur@[(
                                    #[trigger] g.adj@[u as int]@[j2]).to as int].is_some() && (
                                cell.amount as int * g.adj@[u as int]@[j2].rate_ppm) / (
                                RATE_SCALE as int) <= cell_amount(
                                    cur@[g.adj@[u as int]@[j2].to as int],
                                ) by {
                                    let t = g.adj@[u as int]@[j2].to as int;
                                    if t == e.to as int {
                                        assert(cell_amount(cur@[t]) == na as int);
                                    } else {
                                        assert(cur@[t] == cur0[t]);
                                    }
                                }
                            }
                        } else {
                            proof {
                                assert(na as int <= cell_amount(cur@[e.to as int]));
                                assert forall|j2: int| 0 <= j2 < j + 1 implies cur@[(
                                    #[trigger] g.adj@[u as int]@[j2]).to as int].is_some() && (
                                cell.amount as int * g.adj@[u as int]@[j2].rate_ppm) / (
                                RATE_SCALE as int) <= cell_amount(
                                    cur@[g.adj@[u as int]@[j2].to as int],
                                ) by {
                                    if j2 == j {
                                        assert(cur@[e.to as int].is_some());
                                    }
                                }
                            }
                        }
                        j = j + 1;
                    }
                },
                None => {},
            }
            proof {
                assert forall|u2: int, j2: int|
                    0 <= u2 < u + 1 && 0 <= j2 < g.adj@[u2]@.len() && levels_best@[h
                        - 1]@[u2].is_some() implies cur@[(#[trigger] g.adj@[u2]@[j2]).to
                    as int].is_some() && (cell_amount(levels_best@[h - 1]@[u2])
                    * g.adj@[u2]@[j2].rate_ppm) / (RATE_SCALE as int) <= cell_amount(
                    cur@[g.adj@[u2]@[j2].to as int],
                ) by {}
            }
            u = u + 1;
        }
        let ghost lb0 = levels_best@;
        let ghost lp0 = levels_pred@;
        levels_best.push(cur);
        levels_pred.push(cur_pred);
        proof {
            assert(levels_best@ == lb0.push(cur));
            assert(levels_pred@ == lp0.push(cur_pred));
            assert forall|h2: int, v: int| 1 <= h2 < h + 1 && 0 <= v < n implies pred_entry_ok(
                *g,
                levels_best@[h2 - 1]@,
                v,
                #[trigger] levels_pred@[h2]@[v],
            ) by {
                if h2 < h {
                    assert(levels_pred@[h2] == lp0[h2]);
                    assert(levels_best@[h2 - 1] == lb0[h2 - 1]);
                } else {
                    assert(levels_pred@[h2]@[v] == cur_pred@[v]);
                    assert(levels_best@[h2 - 1] == lb0[h - 1]);
                }
            }
            assert forall|h2: int, v: int|
                1 <= h2 < h + 1 && 0 <= v < n && (#[trigger] levels_best@[h2]@[v]).is_some()
                    implies levels_pred@[h2]@[v].is_some() by {
                if h2 < h {
                    assert(levels_best@[h2] == lb0[h2]);
                    assert(levels_pred@[h2] == lp0[h2]);
                } else {
                    assert(levels_best@[h2]@[v] == cur@[v]);
                    assert(levels_pred@[h2]@[v] == cur_pred@[v]);
                }
            }
            assert forall|h2: int, v: int| 1 <= h2 < h + 1 && 0 <= v < n implies link_ok(
                levels_best@[h2 - 1]@,
                levels_best@[h2]@[v],
                #[trigger] levels_pred@[h2]@[v],
            ) by {
                if h2 < h {
                    assert(levels_pred@[h2] == lp0[h2]);
                    assert(levels_best@[h2] == lb0[h2]);
                    assert(levels_best@[h2 - 1] == lb0[h2 - 1]);
                } else {
                    assert(levels_pred@[h2]@[v] == cur_pred@[v]);
                    assert(levels_best@[h2]@[v] == cur@[v]);
                    assert(levels_best@[h2 - 1] == lb0[h - 1]);
                }
            }
            assert forall|h2: int, v: int| 0 <= h2 < h + 1 && 0 <= v < n implies cell_witnessed(
                *g,
                source,
                input_amount,
                h2,
                v,
                #[trigger] levels_best@[h2]@[v],
            ) by {
                if h2 < h {
                    assert(levels_best@[h2] == lb0[h2]);
                    assert(cell_witnessed(*g, source, input_amount, h2, v, lb0[h2]@[v]));
                } else {
                    assert(levels_best@[h2]@[v] == cur@[v]);
                    assert(cell_witnessed(*g, source, input_amount, h2, v, cur@[v]));
                }
            }
            assert forall|assets2: Seq<usize>, hops2: Seq<Hop>|
                #[trigger] chain_from(*g, source, assets2, hops2) && hops2.len() < h + 1
                    implies levels_best@[hops2.len() as int]@[assets2.last() as int].is_some()
                && compound_int(input_amount as int, hop_rates(hops2)) <= cell_amount(
                levels_best@[hops2.len() as int]@[assets2.last() as int],
            ) by {
                if hops2.len() < h {
                    assert(levels_best@[hops2.len() as int] == lb0[hops2.len() as int]);
                } else {
                    // A chain of exactly h hops: its prefix is bounded by the
                    // previous level's cell, and relaxing the final edge
                    // carried that bound to this level.
                    let pa = assets2.drop_last();
                    let ph = hops2.drop_last();
                    lemma_chain_prefix(*g, source, assets2, hops2);
                    lemma_chain_last_in_range(*g, source, pa, ph);
                    let u2 = pa.last();
                    assert(chain_from(*g, source, pa, ph));
                    assert(lb0[ph.len() as int]@[u2 as int].is_some());
                    assert(compound_int(input_amount as int, hop_rates(ph)) <= cell_amount(
                        lb0[ph.len() as int]@[u2 as int],
                    ));
                    let e = hops2.last().edge;
                    assert(hops2.last().from == u2);
                    assert(g.has_edge(u2 as int, e));
                    assert(e.to == assets2.last()) by {
                        assert(hops2[hops2.len() - 1].edge.to == assets2[hops2.len() as int]);
                        assert(assets2.last() == assets2[assets2.len() - 1]);
                    }
                    let j2 = choose|j2: int|
                        0 <= j2 < g.adj@[u2 as int]@.len() && #[trigger] g.adj@[u2 as int]@[j2]
                            == e;
                    assert(levels_best@[h - 1] == lb0[h - 1]);
                    assert(cur@[g.adj@[u2 as int]@[j2].to as int].is_some());
                    assert((cell_amount(lb0[(h - 1) as int]@[u2 as int]) * e.rate_ppm) / (
                    RATE_SCALE as int) <= cell_amount(cur@[e.to as int]));
                    assert(hop_rates(ph).push(e.rate_ppm) =~= hop_rates(hops2));
                    lemma_compound_push(input_amount as int, hop_rates(ph), e.rate_ppm);
                    let cp = compound_int(input_amount as int, hop_rates(ph));
                    let pb = cell_amount(lb0[(h - 1) as int]@[u2 as int]);
                    assert(cp <= pb);
                    vstd::arithmetic::mul::lemma_mul_inequality(cp, pb, e.rate_ppm as int);
                    vstd::arithmetic::div_mod::lemma_div_is_ordered(
                        cp * e.rate_ppm,
                        pb * e.rate_ppm,
                        RATE_SCALE as int,
                    );
                    assert(compound_int(input_amount as int, hop_rates(hops2)) <= cell_amount(
                        cur@[e.to as int],
                    ));
                    assert(levels_best@[hops2.len() as int]@ == cur@);
                }
            }
            assert forall|vs: Seq<usize>|
                #[trigger] is_path(*g, vs) && vs.len() >= 1 && vs[0] == source && vs.len() <= h + 1
                    implies levels_best@[vs.len() - 1]@[vs.last() as int].is_some() by {
                if vs.len() <= h {
                    assert(levels_best@[vs.len() - 1] == lb0[vs.len() - 1]);
                } else {
                    // A path of exactly h edges: its prefix reaches the
                    // second-to-last vertex at level h - 1, and the last edge
                    // was relaxed when that vertex was processed.
                    let p = vs.drop_last();
                    lemma_is_path_prefix(*g, vs);
                    assert(p.len() == h);
                    assert(lb0[p.len() - 1]@[p.last() as int].is_some());
                    let up = p.last();
                    lemma_path_vertices_in_range(*g, vs, vs.len() - 2);
                    assert(up < n);
                    assert(path_step(*g, vs, vs.len() - 2));
                    assert(g.connected(vs[vs.len() - 2] as int, vs[vs.len() - 1] as int));
                    let e = choose|e: GraphEdge|
                        g.has_edge(up as int, e) && e.to as int == vs.last() as int;
                    let j2 = choose|j2: int|
                        0 <= j2 < g.adj@[up as int]@.len() && #[trigger] g.adj@[up as int]@[j2]
                            == e;
                    assert(levels_best@[h - 1]@[up as int].is_some()) by {
                        assert(levels_best@[h - 1] == lb0[h - 1]);
                    }
                    assert(cur@[g.adj@[up as int]@[j2].to as int].is_some());
                    assert(levels_best@[vs.len() - 1]@ == cur@);
                }
            }
        }
        h = h + 1;
    }
    // Pick the best level at the destination: highest output, then highest
    // aggregate liquidity, then fewest hops.
    let mut found: Option<usize> = None;
    let mut best_amt: u64 = 0;
    let mut best_liq: u64 = 0;
    let mut h2: usize = 0;
    while h2 <= max_hops
        invariant
            max_hops < usize::MAX,
            h2 <= max_hops + 1,
            levels_best@.len() == max_hops + 1,
            forall|h3: int| 0 <= h3 < max_hops + 1 ==> (#[trigger] levels_best@[h3])@.len() == n,
            destination < n,
            match found {
                Some(hf) => hf <= max_hops && hf < h2 && levels_best@[hf as int]@[destination
                    as int] == Some(DpCell { amount: best_amt, liq: best_liq }) && (forall|h3: int|
                    0 <= h3 < h2 ==> cell_amount(#[trigger] levels_best@[h3]@[destination as int])
                        < best_amt as int || (cell_amount(
                        levels_best@[h3]@[destination as int],
                    ) == best_amt as int && cell_liq(levels_best@[h3]@[destination as int])
                        <= best_liq as int)) && (forall|h3: int|
                    0 <= h3 < hf ==> cell_amount(#[trigger] levels_best@[h3]@[destination as int])
                        < best_amt as int || (cell_amount(
                        levels_best@[h3]@[destination as int],
                    ) == best_amt as int && cell_liq(levels_best@[h3]@[destination as int])
                        < best_liq as int)),
                None => forall|h3: int|
                    0 <= h3 < h2 ==> !(#[trigger] levels_best@[h3]@[destination as int]).is_some(),
            },
        decreases max_hops + 1 - h2,
    {
        let reached = levels_best[h2][destination];
        match reached {
            Some(c) => {
                let take = match found {
                    None => true,
                    Some(_) => c.amount > best_amt || (c.amount == best_amt && c.liq > best_liq),
                };
                if take {
                    found = Some(h2);
                    best_amt = c.amount;
                    best_liq = c.liq;
                }
            },
            None => {},
        }
        h2 = h2 + 1;
    }
    match found {
        None => {
            proof {
                assert forall|vs: Seq<usize>|
                    !(#[trigger] is_path(*g, vs) && vs.len() >= 1 && vs[0] == source && vs.last()
                        == destination && vs.len() - 1 <= max_hops) by {
                    if is_path(*g, vs) && vs.len() >= 1 && vs[0] == source && vs.last()
                        == destination && vs.len() - 1 <= max_hops {
                        assert(levels_best@[vs.len() - 1]@[vs.last() as int].is_some());
                        assert(!levels_best@[vs.len() - 1]@[destination as int].is_some());
                        assert(false);
                    }
                }
                assert(!path_exists(*g, source, destination, max_hops));
            }
            None
        },
        Some(hf) => {
            // Walk the predecessor links back to the source.
            let mut rev_hops: Vec<Hop> = Vec::new();
            let mut vcur: usize = destination;
            let mut hcur: usize = hf;
            while hcur > 0
                invariant
                    g.wf(),
                    n == g.n_assets,
                    source < n,
                    destination < n,
                    hcur <= hf <= max_hops,
                    vcur < n,
                    levels_best@.len() == max_hops + 1,
                    levels_pred@.len() == max_hops + 1,
                    forall|h3: int|
                        0 <= h3 < max_hops + 1 ==> (#[trigger] levels_best@[h3])@.len() == n,
                    forall|h3: int|
                        0 <= h3 < max_hops + 1 ==> (#[trigger] levels_pred@[h3])@.len() == n,
                    forall|v: int|
                        0 <= v < n ==> ((#[trigger] levels_best@[0]@[v]).is_some() <==> v
                            == source as int),
                    forall|h3: int, v: int|
                        1 <= h3 < max_hops + 1 && 0 <= v < n ==> pred_entry_ok(
                            *g,
                            levels_best@[h3 - 1]@,
                            v,
                            #[trigger] levels_pred@[h3]@[v],
                        ),
                    forall|h3: int, v: int|
                        1 <= h3 < max_hops + 1 && 0 <= v < n && (#[trigger] levels_best@[h3]@[v]).is_some()
                            ==> levels_pred@[h3]@[v].is_some(),
                    forall|h3: int, v: int|
                        1 <= h3 < max_hops + 1 && 0 <= v < n ==> link_ok(
                            levels_best@[h3 - 1]@,
                            levels_best@[h3]@[v],
                            #[trigger] levels_pred@[h3]@[v],
                        ),
                    levels_best@[0]@[source as int] == Some(
                        DpCell { amount: input_amount, liq: 0 },
                    ),
                    levels_best@[hcur as int]@[vcur as int].is_some(),
                    rev_chain_amount(
                        cell_amount(levels_best@[hcur as int]@[vcur as int]),
                        rev_hops@,
                    ) == best_amt as int,
                    rev_liq_fold(
                        cell_liq(levels_best@[hcur as int]@[vcur as int]),
                        rev_hops@,
                    ) == best_liq as int,
                    rev_hops@.len() == hf - hcur,
                    forall|i: int|
                        0 <= i < rev_hops@.len() ==> (#[trigger] rev_hops@[i]).from < n
                            && g.has_edge(rev_hops@[i].from as int, rev_hops@[i].edge),
                    rev_hops@.len() > 0 ==> rev_hops@[0].edge.to == destination,
                    forall|i: int|
                        0 <= i < rev_hops@.len() - 1 ==> (#[trigger] rev_hops@[i]).from
                            == rev_hops@[i + 1].edge.to,
                    rev_hops@.len() > 0 ==> vcur == rev_hops@.last().from,
                    rev_hops@.len() == 0 ==> vcur == destination,
                decreases hcur,
            {
                let hop = levels_pred[hcur][vcur].unwrap();
                let ghost rh0 = rev_hops@;
                rev_hops.push(hop);
                proof {
                    assert(pred_entry_ok(
                        *g,
                        levels_best@[hcur - 1]@,
                        vcur as int,
                        levels_pred@[hcur as int]@[vcur as int],
                    ));
                    assert(link_ok(
                        levels_best@[hcur - 1]@,
                        levels_best@[hcur as int]@[vcur as int],
                        levels_pred@[hcur as int]@[vcur as int],
                    ));
                    assert(rev_hops@.last() == hop);
                    assert(rev_hops@.drop_last() =~= rh0);
                    assert((cell_amount(levels_best@[hcur - 1]@[hop.from as int])
                        * hop.edge.rate_ppm) / (RATE_SCALE as int) == cell_amount(
                        levels_best@[hcur as int]@[vcur as int],
                    ));
                    assert(rev_chain_amount(
                        cell_amount(levels_best@[hcur - 1]@[hop.from as int]),
                        rev_hops@,
                    ) == best_amt as int);
                    assert(sat_liq_add(
                        cell_liq(levels_best@[hcur - 1]@[hop.from as int]),
                        hop.edge.liquidity_ppm,
                    ) == cell_liq(levels_best@[hcur as int]@[vcur as int]));
                    assert(rev_liq_fold(
                        cell_liq(levels_best@[hcur - 1]@[hop.from as int]),
                        rev_hops@,
                    ) == best_liq as int);
                    assert forall|i: int|
                        0 <= i < rev_hops@.len() - 1 implies (#[trigger] rev_hops@[i]).from
                        == rev_hops@[i + 1].edge.to by {
                        if i < rh0.len() - 1 {
                            assert(rev_hops@[i] == rh0[i]);
                            assert(rev_hops@[i + 1] == rh0[i + 1]);
                        } else {
                            assert(rev_hops@[i] == rh0[i]);
                            assert(rev_hops@[i + 1] == hop);
                        }
                    }
                }
                vcur = hop.from;
                hcur = hcur - 1;
            }
            proof {
                assert(levels_best@[0]@[vcur as int].is_some());
                assert(vcur == source);
                assert(rev_chain_amount(input_amount as int, rev_hops@) == best_amt as int);
                assert(rev_liq_fold(0, rev_hops@) == best_liq as int);
            }
            // Reverse into forward order.
            let mut hops: Vec<Hop> = Vec::new();
            let total = rev_hops.len();
            let mut i: usize = total;
            while i > 0
                invariant
                    i <= total,
                    total == rev_hops@.len(),
                    hops@.len() == total - i,
                    forall|k: int|
                        0 <= k < hops@.len() ==> #[trigger] hops@[k] == rev_hops@[total - 1 - k],
                decreases i,
            {
                i = i - 1;
                hops.push(rev_hops[i]);
            }
            proof {
                // The forward chain: starts at the source, ends at the
                // destination, consecutive hops link up.
                assert(hops@.len() == hf);
                if hops@.len() > 0 {
                    assert(hops@[0] == rev_hops@[total - 1]);
                    assert(hops@[hops@.len() - 1] == rev_hops@[0]);
                }
                assert forall|k: int|
                    0 <= k < hops@.len() - 1 implies (#[trigger] hops@[k]).edge.to
                    == hops@[k + 1].from by {
                    assert(hops@[k] == rev_hops@[total - 1 - k]);
                    assert(hops@[k + 1] == rev_hops@[total - 1 - (k + 1)]);
                    assert(rev_hops@[total - 2 - k].from == rev_hops@[total - 1 - k].edge.to);
                }
                lemma_rev_chain_matches(input_amount as int, rev_hops@, hops@);
                assert(compound_int(input_amount as int, hop_rates(hops@)) == best_amt as int);
                lemma_rev_liq_matches(0, rev_hops@, hops@);
                assert(chain_liquidity(hops@) == best_liq as int);
            }
            // Chain the visited assets.
            let mut assets: Vec<usize> = Vec::new();
            assets.push(source);
            let n_hops = hops.len();
            let mut k: usize = 0;
            while k < n_hops
                invariant
                    k <= n_hops,
                    n_hops == hops@.len(),
                    assets@.len() == k + 1,
                    assets@[0] == source,
                    hops@.len() > 0 ==> hops@[0].from == source,
                    forall|t: int|
                        0 <= t < hops@.len() - 1 ==> (#[trigger] hops@[t]).edge.to == hops@[t
                            + 1].from,
                    forall|t: int|
                        0 <= t < k ==> (#[trigger] hops@[t]).from == assets@[t] && hops@[t].edge.to
                            == assets@[t + 1],
                decreases n_hops - k,
            {
                let hk = hops[k];
                let ghost assets0 = assets@;
                assets.push(hk.edge.to);
                proof {
                    assert(assets@ == assets0.push(hk.edge.to));
                    assert(hops@[k as int].from == assets@[k as int]) by {
                        if k > 0 {
                            assert(hops@[k - 1].edge.to == assets0[k as int]);
                            assert(hops@[k - 1].edge.to == hops@[k as int].from);
                        }
                    }
                    assert forall|t: int|
                        0 <= t < k + 1 implies (#[trigger] hops@[t]).from == assets@[t]
                        && hops@[t].edge.to == assets@[t + 1] by {
                        if t < k {
                            assert(assets@[t] == assets0[t]);
                            assert(assets@[t + 1] == assets0[t + 1]);
                        } else {
                            assert(assets@[t + 1] == hk.edge.to);
                        }
                    }
                }
                k = k + 1;
            }
            // Recompute the output by applying every hop's rate in order.
            proof {
                assert forall|t: int|
                    0 <= t < hops@.len() implies (#[trigger] hops@[t]).edge.rate_ppm
                        + hops@[t].edge.fee_ppm <= RATE_SCALE by {
                    let e = hops@[t].edge;
                    let f = hops@[t].from as int;
                    assert(g.has_edge(f, e));
                    let j3 = choose|j3: int|
                        0 <= j3 < g.adj@[f]@.len() && #[trigger] g.adj@[f]@[j3] == e;
                    assert(g.adj@[f]@[j3].rate_ppm + g.adj@[f]@[j3].fee_ppm <= RATE_SCALE);
                }
            }
            let ghost rates = hop_rates(hops@);
            let ghost frates = fee_only_rates(hops@);
            proof {
                assert(rates.skip(0) =~= rates);
                assert(frates.skip(0) =~= frates);
            }
            let mut out: u64 = input_amount;
            let mut t: usize = 0;
            while t < n_hops
                invariant
                    t <= n_hops,
                    n_hops == hops@.len(),
                    rates == hop_rates(hops@),
                    rates.len() == n_hops,
                    forall|t2: int|
                        0 <= t2 < hops@.len() ==> (#[trigger] hops@[t2]).edge.rate_ppm
                            + hops@[t2].edge.fee_ppm <= RATE_SCALE,
                    compound_int(input_amount as int, rates) == compound_int(
                        out as int,
                        rates.skip(t as int),
                    ),
                decreases n_hops - t,
            {
                let e = hops[t].edge;
                proof {
                    assert(rates[t as int] == e.rate_ppm);
                    assert(rates.skip(t as int).len() > 0);
                    assert(rates.skip(t as int)[0] == rates[t as int]);
                    assert(rates.skip(t as int).drop_first() =~= rates.skip(t as int + 1));
                }
                out = apply_rate_bounded(out, e.rate_ppm);
                t = t + 1;
            }
            proof {
                assert(rates.skip(n_hops as int) =~= Seq::<u64>::empty());
                assert(compound_int(input_amount as int, rates) == out);
            }
            // The fee-only reference output.
            let mut ref_out: u64 = input_amount;
            let mut t2: usize = 0;
            while t2 < n_hops
                invariant
                    t2 <= n_hops,
                    n_hops == hops@.len(),
                    frates == fee_only_rates(hops@),
                    frates.len() == n_hops,
                    forall|t3: int|
                        0 <= t3 < hops@.len() ==> (#[trigger] hops@[t3]).edge.rate_ppm
                            + hops@[t3].edge.fee_ppm <= RATE_SCALE,
                    forall|t3: int|
                        0 <= t3 < hops@.len() ==> (#[trigger] hops@[t3]).edge.fee_ppm < RATE_SCALE,
                    compound_int(input_amount as int, frates) == compound_int(
                        ref_out as int,
                        frates.skip(t2 as int),
                    ),
                decreases n_hops - t2,
            {
                let e = hops[t2].edge;
                proof {
                    assert(frates[t2 as int] == (RATE_SCALE - e.fee_ppm) as u64);
                    assert(frates.skip(t2 as int).len() > 0);
                    assert(frates.skip(t2 as int)[0] == frates[t2 as int]);
                    assert(frates.skip(t2 as int).drop_first() =~= frates.skip(t2 as int + 1));
                }
                ref_out = apply_rate_bounded(ref_out, RATE_SCALE - e.fee_ppm);
                t2 = t2 + 1;
            }
            proof {
                assert(frates.skip(n_hops as int) =~= Seq::<u64>::empty());
                assert(compound_int(input_amount as int, frates) == ref_out);
                // The output never beats the fee-only reference.
                assert forall|i2: int| 0 <= i2 < rates.len() implies #[trigger] rates[i2]
                    <= frates[i2] by {
                    assert(rates[i2] == hops@[i2].edge.rate_ppm);
                    assert(frates[i2] == (RATE_SCALE - hops@[i2].edge.fee_ppm) as u64);
                }
                lemma_compound_pointwise_le(input_amount as int, rates, frates);
                assert(out <= ref_out);
            }
            let impact: u64 = if ref_out > 0 {
                proof {
                    lemma_mul_upper_bound(
                        (ref_out - out) as int,
                        u64::MAX as int,
                        RATE_SCALE as int,
                        RATE_SCALE as int,
                    );
                    lemma_mul_nonnegative((ref_out - out) as int, RATE_SCALE as int);
                    lemma_div_pos_is_pos(((ref_out - out) * RATE_SCALE) as int, ref_out as int);
                    lemma_mul_inequality((ref_out - out) as int, ref_out as int, RATE_SCALE as int);
                    lemma_div_is_ordered(
                        ((ref_out - out) * RATE_SCALE) as int,
                        (ref_out * RATE_SCALE) as int,
                        ref_out as int,
                    );
                    lemma_div_multiples_vanish(RATE_SCALE as int, ref_out as int);
                }
                ((((ref_out - out) as u128) * (RATE_SCALE as u128)) / (ref_out as u128)) as u64
            } else {
                0
            };
            let route = Route {
                assets,
                hops,
                input_amount,
                output_amount: out,
                price_impact_ppm: impact,
            };
            proof {
                assert(route_wf(*g, route));
                assert(route.price_impact_ppm == price_impact(input_amount, route.hops@));
                assert(route.assets@.last() == destination) by {
                    if route.hops@.len() > 0 {
                        assert(route.hops@[route.hops@.len() - 1].edge.to
                            == route.assets@[route.assets@.len() - 1]);
                        assert(route.hops@[route.hops@.len() - 1] == rev_hops@[0]);
                    }
                }
                // No chain within the hop budget beats the returned route:
                // the relaxation bounded every chain by its level's cell, and
                // the selection took the best cell, which the route's
                // recomputed output equals.
                assert(route.output_amount == best_amt);
                assert forall|assets2: Seq<usize>, hops2: Seq<Hop>|
                    #[trigger] chain_from(*g, source, assets2, hops2) && assets2.last()
                        == destination && hops2.len() <= max_hops implies compound_int(
                    input_amount as int,
                    hop_rates(hops2),
                ) <= route.output_amount by {
                    assert(levels_best@[hops2.len() as int]@[destination as int].is_some());
                    assert(compound_int(input_amount as int, hop_rates(hops2)) <= cell_amount(
                        levels_best@[hops2.len() as int]@[destination as int],
                    ));
                    assert(cell_amount(levels_best@[hops2.len() as int]@[destination as int])
                        <= best_amt as int);
                }
                // Tie-breaking: a chain tying the best output on fewer hops
                // loses to the route only on aggregate liquidity, witnessed
                // by the tied chain the search held at the shorter length.
                assert(chain_liquidity(route.hops@) == best_liq as int);
                assert forall|assetsx: Seq<usize>, hopsx: Seq<Hop>|
                    #[trigger] chain_from(*g, source, assetsx, hopsx) && assetsx.last()
                        == destination && hopsx.len() <= max_hops && hopsx.len()
                        < route.hops@.len() && compound_int(input_amount as int, hop_rates(hopsx))
                        == route.output_amount implies exists|assetsz: Seq<usize>, hopsz: Seq<Hop>|
                    #[trigger] chain_from(*g, source, assetsz, hopsz) && assetsz.last()
                        == destination && hopsz.len() == hopsx.len() && compound_int(
                        input_amount as int,
                        hop_rates(hopsz),
                    ) == route.output_amount && chain_liquidity(hopsz) < chain_liquidity(
                        route.hops@,
                    ) by {
                    let hx = hopsx.len() as int;
                    assert(levels_best@[hx]@[destination as int].is_some());
                    assert(compound_int(input_amount as int, hop_rates(hopsx)) <= cell_amount(
                        levels_best@[hx]@[destination as int],
                    ));
                    assert(cell_witnessed(
                        *g,
                        source,
                        input_amount,
                        hx,
                        destination as int,
                        levels_best@[hx]@[destination as int],
                    ));
                    let c = levels_best@[hx]@[destination as int].unwrap();
                    let (az, hz) = choose|az: Seq<usize>, hz: Seq<Hop>|
                        #[trigger] cell_achieved(
                            *g,
                            source,
                            input_amount,
                            hx,
                            destination as int,
                            c,
                            az,
                            hz,
                        );
                    assert(az.last() == destination);
                    assert(compound_int(input_amount as int, hop_rates(hz))
                        <= route.output_amount);
                    assert(c.amount as int == compound_int(input_amount as int, hop_rates(hz)));
                    assert(c.amount == route.output_amount);
                    assert(hx < hf);
                    assert(cell_liq(levels_best@[hx]@[destination as int]) < best_liq as int);
                    assert(chain_liquidity(hz) == c.liq as int);
                    assert(chain_from(*g, source, az, hz) && az.last() == destination && hz.len()
                        == hopsx.len() && compound_int(input_amount as int, hop_rates(hz))
                        == route.output_amount && chain_liquidity(hz) < chain_liquidity(
                        route.hops@,
                    ));
                }
            }
            Some(route)
        },
    }
}

} // verus!
