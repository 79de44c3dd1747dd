//! Arbitrage scanning: profitable cycles in the liquidity graph.
//!
//! For every asset, a bounded relaxation over hop counts looks for the walk
//! that returns to its start with the most value; such a cycle has a rate
//! product above one. Candidates crossing any edge below the liquidity floor
//! are never considered, and a surviving cycle is kept exactly when its gross
//! profit covers the flash-loan fee and gas cost and clears the minimum
//! profit threshold in basis points. Amounts compound with saturation at the
//! largest representable value (`compound_capped`), which agrees with plain
//! compounding whenever nothing saturates.

use vstd::prelude::*;
use crate::graph::LiquidityGraph;
use crate::path::{Hop, chain_ok, hop_rates};
use crate::rate::{
    BPS_SCALE, RATE_SCALE, apply_rate, capped_step, compound_capped, lemma_compound_capped_push,
};
use vstd::arithmetic::div_mod::{lemma_div_is_ordered, lemma_div_multiples_vanish, lemma_div_pos_is_pos};
use vstd::arithmetic::mul::{lemma_mul_inequality, lemma_mul_nonnegative, lemma_mul_upper_bound};

verus! {

/// Flash-loan fee charged on the borrowed amount, in basis points.
pub const FLASH_LOAN_FEE_BPS: u64 = 9;

/// A profitable cycle: a closed chain of edges together with the amounts
/// that make it worth taking.
#[derive(Clone, Debug)]
pub struct ArbitrageCycle {
    /// The assets visited; the first and last coincide.
    pub assets: Vec<usize>,
    /// `hops[i]` leads from `assets[i]` to `assets[i + 1]`.
    pub hops: Vec<Hop>,
    /// The flash-borrowed amount driven around the cycle.
    pub borrow_amount: u64,
    /// The borrowed amount compounded through every hop of the cycle,
    /// saturating at the largest representable amount.
    pub gross_output: u64,
    /// Gross profit less the flash-loan fee and the gas cost.
    pub net_profit: u64,
    /// Gross profit over the borrowed amount, in basis points, saturating.
    pub profit_bps: u64,
}

/// The flash-loan fee owed on a borrowed amount, rounded down.
pub open spec fn spec_flash_fee(borrow: u64) -> int {
    (borrow * FLASH_LOAN_FEE_BPS) / (BPS_SCALE as int)
}

/// Gross profit over the borrowed amount, in basis points, rounded down.
pub open spec fn spec_profit_bps(gross: u64, borrow: u64) -> int {
    ((gross - borrow) * (BPS_SCALE as int)) / (borrow as int)
}

/// A detected cycle is reported exactly when its gross output beats the
/// borrowed amount, the gross profit covers the flash-loan fee plus the gas
/// cost, and the profit in basis points reaches the threshold.
pub open spec fn spec_cycle_qualifies(
    gross: u64,
    borrow: u64,
    gas_cost: u64,
    min_profit_bps: u64,
) -> bool {
    &&& gross > borrow
    &&& (gross - borrow) - spec_flash_fee(borrow) - gas_cost > 0
    &&& spec_profit_bps(gross, borrow) >= min_profit_bps
}

/// Reporting a cycle means exactly that its rate product, applied to the
/// borrowed amount, exceeds what went in by more than the combined
/// flash-loan fee and gas cost, and that the gross profit clears the
/// minimum-profit threshold.
pub proof fn lemma_cycle_reported_iff(gross: u64, borrow: u64, gas_cost: u64, min_profit_bps: u64)
    requires
        borrow > 0,
    ensures
        spec_cycle_qualifies(gross, borrow, gas_cost, min_profit_bps) <==> ((gross as int) > borrow
            + spec_flash_fee(borrow) + gas_cost && spec_profit_bps(gross, borrow)
            >= min_profit_bps),
{
    lemma_mul_nonnegative(borrow as int, FLASH_LOAN_FEE_BPS as int);
    lemma_div_pos_is_pos((borrow * FLASH_LOAN_FEE_BPS) as int, BPS_SCALE as int);
}

/// A higher gross output can only improve a cycle's qualification.
proof fn lemma_qualifies_monotone(g1: u64, g2: u64, borrow: u64, gas_cost: u64, min_profit_bps: u64)
    requires
        borrow > 0,
        g1 <= g2,
        spec_cycle_qualifies(g1, borrow, gas_cost, min_profit_bps),
    ensures
        spec_cycle_qualifies(g2, borrow, gas_cost, min_profit_bps),
{
    lemma_mul_inequality((g1 - borrow) as int, (g2 - borrow) as int, BPS_SCALE as int);
    lemma_div_is_ordered(
        (g1 - borrow) * (BPS_SCALE as int),
        (g2 - borrow) * (BPS_SCALE as int),
        borrow as int,
    );
}

/// A chain of hops leaving `start` whose every hop clears the liquidity
/// floor.
pub open spec fn floor_chain_from(
    g: LiquidityGraph,
    start: usize,
    assets: Seq<usize>,
    hops: Seq<Hop>,
    min_liq: u64,
) -> bool {
    &&& chain_ok(g, assets, hops)
    &&& assets.len() >= 1
    &&& assets[0] == start
    &&& forall|i: int| 0 <= i < hops.len() ==> (#[trigger] hops[i]).edge.liquidity_ppm >= min_liq
}

/// Everything the scanner promises of a cycle it returns.
pub open spec fn reported_cycle_ok(
    g: LiquidityGraph,
    c: ArbitrageCycle,
    borrow: u64,
    min_profit_bps: u64,
    min_liquidity_ppm: u64,
    gas_cost: u64,
    max_cycle_hops: usize,
) -> bool {
    &&& chain_ok(g, c.assets@, c.hops@)
    &&& 1 <= c.hops@.len() <= max_cycle_hops
    &&& c.assets@[0] == c.assets@.last()
    &&& forall|i: int|
        0 <= i < c.hops@.len() ==> (#[trigger] c.hops@[i]).edge.liquidity_ppm >= min_liquidity_ppm
    &&& c.borrow_amount == borrow
    &&& c.gross_output as int == compound_capped(borrow as int, hop_rates(c.hops@))
    &&& spec_cycle_qualifies(c.gross_output, borrow, gas_cost, min_profit_bps)
    &&& c.net_profit == (c.gross_output - borrow) - spec_flash_fee(borrow) - gas_cost
    &&& c.profit_bps == (if spec_profit_bps(c.gross_output, borrow) <= u64::MAX as int {
        spec_profit_bps(c.gross_output, borrow)
    } else {
        u64::MAX as int
    })
}

/// Every qualifying floor cycle has a reported representative at its start.
pub open spec fn start_covered(
    g: LiquidityGraph,
    r: Seq<ArbitrageCycle>,
    s: usize,
    borrow: u64,
    min_profit_bps: u64,
    min_liquidity_ppm: u64,
    gas_cost: u64,
    max_cycle_hops: usize,
) -> bool {
    forall|assets2: Seq<usize>, hops2: Seq<Hop>|
        #[trigger] floor_chain_from(g, s, assets2, hops2, min_liquidity_ppm) && assets2.last() == s
            && 1 <= hops2.len() <= max_cycle_hops && spec_cycle_qualifies(
            compound_capped(borrow as int, hop_rates(hops2)) as u64,
            borrow,
            gas_cost,
            min_profit_bps,
        ) ==> exists|i: int| 0 <= i < r.len() && (#[trigger] r[i]).assets@[0] == s
}

/// The amount held in a relaxation cell; empty cells count below every real
/// amount.
spec fn cyc_cell_amount(c: Option<u64>) -> int {
    match c {
        Some(v) => v as int,
        None => -1,
    }
}

/// A predecessor entry at some level for asset `v`: a real edge into `v`, at
/// or above the liquidity floor, whose tail was reached one level earlier.
spec fn cyc_pred_ok(
    g: LiquidityGraph,
    prev_row: Seq<Option<u64>>,
    v: int,
    min_liq: u64,
    p: Option<Hop>,
) -> bool {
    match p {
        Some(hop) => {
            &&& hop.from < g.n_assets
            &&& (hop.from as int) < prev_row.len()
            &&& g.has_edge(hop.from as int, hop.edge)
            &&& hop.edge.to as int == v
            &&& hop.edge.liquidity_ppm >= min_liq
            &&& prev_row[hop.from as int].is_some()
        },
        None => true,
    }
}

/// A recorded predecessor carries the exact arithmetic of its relaxation.
spec fn cyc_link_ok(prev_row: Seq<Option<u64>>, cell: Option<u64>, p: Option<Hop>) -> bool {
    match p {
        Some(hop) => match cell {
            Some(c) => {
                &&& (hop.from as int) < prev_row.len()
                &&& match prev_row[hop.from as int] {
                    Some(pc) => c as int == capped_step(pc as int, hop.edge.rate_ppm),
                    None => false,
                }
            },
            None => false,
        },
        None => true,
    }
}

/// Dropping the last hop of a floor chain leaves a floor chain.
proof fn lemma_floor_chain_prefix(
    g: LiquidityGraph,
    start: usize,
    assets: Seq<usize>,
    hops: Seq<Hop>,
    min_liq: u64,
)
    requires
        floor_chain_from(g, start, assets, hops, min_liq),
        hops.len() >= 1,
    ensures
        floor_chain_from(g, start, assets.drop_last(), hops.drop_last(), min_liq),
        assets.drop_last().last() == hops.last().from,
{
    let pa = assets.drop_last();
    let ph = hops.drop_last();
    assert forall|i: int| 0 <= i < ph.len() implies {
        &&& (#[trigger] ph[i]).from == pa[i]
        &&& ph[i].edge.to == pa[i + 1]
        &&& g.has_edge(pa[i] as int, ph[i].edge)
        &&& ph[i].edge.liquidity_ppm >= min_liq
    } by {
        assert(ph[i] == hops[i]);
        assert(pa[i] == assets[i]);
        assert(pa[i + 1] == assets[i + 1]);
    }
    assert(pa[0] == assets[0]);
    assert(pa.last() == assets[assets.len() - 2]);
    assert(hops.last().from == assets[hops.len() - 1]);
}

/// The last asset of a floor chain out of a real start is a real asset.
proof fn lemma_floor_chain_last_in_range(
    g: LiquidityGraph,
    start: usize,
    assets: Seq<usize>,
    hops: Seq<Hop>,
    min_liq: u64,
)
    requires
        g.wf(),
        start < g.n_assets,
        floor_chain_from(g, start, assets, hops, min_liq),
    ensures
        assets.last() < g.n_assets,
{
    if hops.len() == 0 {
        assert(assets.last() == assets[0]);
    } else {
        let i = hops.len() - 1;
        let e = hops[i].edge;
        assert(g.has_edge(assets[i] as int, e));
        let j = choose|j: int|
            0 <= j < g.adj@[assets[i] as int]@.len() && #[trigger] g.adj@[assets[i] as int]@[j]
                == e;
        assert(g.adj@[assets[i] as int]@[j].edge_ok(g.n_assets));
        assert(e.to == assets[i + 1]);
        assert(assets.last() == assets[i + 1]);
    }
}

/// Applying the hops collected backwards, latest collected first, with
/// saturation.
spec fn rev_capped_amount(amount: int, rev: Seq<Hop>) -> int
    decreases rev.len(),
{
    if rev.len() == 0 {
        amount
    } else {
        rev_capped_amount(capped_step(amount, rev.last().edge.rate_ppm), rev.drop_last())
    }
}

/// A reversed hop list compounds to the same capped amount forwards.
proof fn lemma_rev_capped_matches(amount: int, rev: Seq<Hop>, hops: Seq<Hop>)
    requires
        hops.len() == rev.len(),
        forall|k: int| 0 <= k < hops.len() ==> #[trigger] hops[k] == rev[rev.len() - 1 - k],
    ensures
        compound_capped(amount, hop_rates(hops)) == rev_capped_amount(amount, rev),
    decreases rev.len(),
{
    if rev.len() > 0 {
        assert(hops[0] == rev[rev.len() - 1]);
        assert(hops[0] == rev.last());
        assert(hop_rates(hops)[0] == hops[0].edge.rate_ppm);
        assert(hop_rates(hops).drop_first() =~= hop_rates(hops.drop_first()));
        assert forall|k: int| 0 <= k < hops.drop_first().len() implies #[trigger] hops.drop_first(
        )[k] == rev.drop_last()[rev.drop_last().len() - 1 - k] by {
            assert(hops.drop_first()[k] == hops[k + 1]);
            assert(hops[k + 1] == rev[rev.len() - 1 - (k + 1)]);
            assert(rev.drop_last()[rev.drop_last().len() - 1 - k] == rev[rev.len() - 2 - k]);
        }
        lemma_rev_capped_matches(
            capped_step(amount, rev.last().edge.rate_ppm),
            rev.drop_last(),
            hops.drop_first(),
        );
    }
}

/// Searches for the best closed walk from `start` back to itself of at most
/// `max_cycle_hops` hops over edges at or above the liquidity floor. A
/// returned candidate is a real closed chain whose gross output is exactly
/// the borrowed amount capped-compounded through its hops, and no floor
/// cycle through `start` within the budget compounds to more; `None` means
/// no such cycle exists at all.
#[verifier::rlimit(80)]
fn find_cycle(
    g: &LiquidityGraph,
    start: usize,
    borrow: u64,
    max_cycle_hops: usize,
    min_liquidity_ppm: u64,
) -> (r: Option<(Vec<usize>, Vec<Hop>, u64)>)
    requires
        g.wf(),
        start < g.n_assets,
        max_cycle_hops < usize::MAX,
    ensures
        match r {
            Some(c) => {
                &&& chain_ok(*g, c.0@, c.1@)
                &&& 1 <= c.1@.len() <= max_cycle_hops
                &&& c.0@[0] == start
                &&& c.0@.last() == start
                &&& forall|i: int|
                    0 <= i < c.1@.len() ==> (#[trigger] c.1@[i]).edge.liquidity_ppm
                        >= min_liquidity_ppm
                &&& c.2 as int == compound_capped(borrow as int, hop_rates(c.1@))
                &&& forall|assets2: Seq<usize>, hops2: Seq<Hop>|
                    #[trigger] floor_chain_from(*g, start, assets2, hops2, min_liquidity_ppm)
                        && assets2.last() == start && 1 <= hops2.len() <= max_cycle_hops
                        ==> compound_capped(borrow as int, hop_rates(hops2)) <= c.2 as int
            },
            None => forall|assets2: Seq<usize>, hops2: Seq<Hop>|
                !(#[trigger] floor_chain_from(*g, start, assets2, hops2, min_liquidity_ppm)
                    && assets2.last() == start && 1 <= hops2.len() <= max_cycle_hops),
        },
{
    let n = g.n_assets;
    let mut best0: Vec<Option<u64>> = Vec::new();
    let mut v0: usize = 0;
    while v0 < n
        invariant
            v0 <= n,
            best0@.len() == v0,
            forall|v: int|
                0 <= v < v0 ==> (#[trigger] best0@[v]) == (if v == start as int {
                    Some(borrow)
                } else {
                    None::<u64>
                }),
        decreases n - v0,
    {
        if v0 == start {
            best0.push(Some(borrow));
        } else {
            best0.push(None);
        }
        v0 = v0 + 1;
    }
    let mut pred0: Vec<Option<Hop>> = Vec::new();
    let mut v1: usize = 0;
    while v1 < n
        invariant
            v1 <= n,
            pred0@.len() == v1,
        decreases n - v1,
    {
        pred0.push(None);
        v1 = v1 + 1;
    }
    let mut levels_best: Vec<Vec<Option<u64>>> = Vec::new();
    let mut levels_pred: Vec<Vec<Option<Hop>>> = Vec::new();
    levels_best.push(best0);
    levels_pred.push(pred0);
    proof {
        assert forall|assets2: Seq<usize>, hops2: Seq<Hop>|
            #[trigger] floor_chain_from(*g, start, assets2, hops2, min_liquidity_ppm)
                && hops2.len() < 1 implies levels_best@[hops2.len() as int]@[assets2.last() as int].is_some()
            && compound_capped(borrow as int, hop_rates(hops2)) <= cyc_cell_amount(
            levels_best@[hops2.len() as int]@[assets2.last() as int],
        ) by {
            assert(assets2.len() == 1);
            assert(assets2.last() == assets2[0]);
            assert(hop_rates(hops2).len() == 0);
            assert(compound_capped(borrow as int, hop_rates(hops2)) == borrow as int);
        }
    }
    let mut h: usize = 1;
    while h <= max_cycle_hops
        invariant
            g.wf(),
            n == g.n_assets,
            start < n,
            max_cycle_hops < usize::MAX,
            1 <= h <= max_cycle_hops + 1,
            levels_best@.len() == h,
            levels_pred@.len() == h,
            forall|h2: int| 0 <= h2 < h ==> (#[trigger] levels_best@[h2])@.len() == n,
            forall|h2: int| 0 <= h2 < h ==> (#[trigger] levels_pred@[h2])@.len() == n,
            forall|v: int|
                0 <= v < n ==> (#[trigger] levels_best@[0]@[v]) == (if v == start as int {
                    Some(borrow)
                } else {
                    None::<u64>
                }),
            forall|h2: int, v: int|
                1 <= h2 < h && 0 <= v < n ==> cyc_pred_ok(
                    *g,
                    levels_best@[h2 - 1]@,
                    v,
                    min_liquidity_ppm,
                    #[trigger] levels_pred@[h2]@[v],
                ),
            forall|h2: int, v: int|
                1 <= h2 < h && 0 <= v < n ==> cyc_link_ok(
                    levels_best@[h2 - 1]@,
                    levels_best@[h2]@[v],
                    #[trigger] levels_pred@[h2]@[v],
                ),
            forall|h2: int, v: int|
                1 <= h2 < h && 0 <= v < n && (#[trigger] levels_best@[h2]@[v]).is_some()
                    ==> levels_pred@[h2]@[v].is_some(),
            forall|assets2: Seq<usize>, hops2: Seq<Hop>|
                #[trigger] floor_chain_from(*g, start, assets2, hops2, min_liquidity_ppm)
                    && hops2.len() < h
                    ==> levels_best@[hops2.len() as int]@[assets2.last() as int].is_some()
                        && compound_capped(borrow as int, hop_rates(hops2)) <= cyc_cell_amount(
                        levels_best@[hops2.len() as int]@[assets2.last() as int],
                    ),
        decreases max_cycle_hops + 1 - h,
    {
        let mut cur: Vec<Option<u64>> = Vec::new();
        let mut cur_pred: Vec<Option<Hop>> = Vec::new();
        let mut v2: usize = 0;
        while v2 < n
            invariant
                v2 <= n,
                cur@.len() == v2,
                cur_pred@.len() == v2,
                forall|v: int| 0 <= v < v2 ==> (#[trigger] cur@[v]).is_none(),
                forall|v: int| 0 <= v < v2 ==> (#[trigger] cur_pred@[v]).is_none(),
            decreases n - v2,
        {
            cur.push(None);
            cur_pred.push(None);
            v2 = v2 + 1;
        }
        let mut u: usize = 0;
        while u < n
            invariant
                g.wf(),
                n == g.n_assets,
                u <= n,
                1 <= h,
                levels_best@.len() == h,
                (#[trigger] levels_best@[h - 1])@.len() == n,
                cur@.len() == n,
                cur_pred@.len() == n,
                forall|v: int|
                    0 <= v < n ==> cyc_pred_ok(
                        *g,
                        levels_best@[h - 1]@,
                        v,
                        min_liquidity_ppm,
                        #[trigger] cur_pred@[v],
                    ),
                forall|v: int|
                    0 <= v < n ==> cyc_link_ok(
                        levels_best@[h - 1]@,
                        cur@[v],
                        #[trigger] cur_pred@[v],
                    ),
                forall|v: int|
                    0 <= v < n && (#[trigger] cur@[v]).is_some() ==> cur_pred@[v].is_some(),
                forall|u2: int, j2: int|
                    0 <= u2 < u && 0 <= j2 < g.adj@[u2]@.len() && g.adj@[u2]@[j2].liquidity_ppm
                        >= min_liquidity_ppm && levels_best@[h - 1]@[u2].is_some() ==> cur@[(
                    #[trigger] g.adj@[u2]@[j2]).to as int].is_some() && capped_step(
                        cyc_cell_amount(levels_best@[h - 1]@[u2]),
                        g.adj@[u2]@[j2].rate_ppm,
                    ) <= cyc_cell_amount(cur@[g.adj@[u2]@[j2].to as int]),
            decreases n - u,
        {
            let reached = levels_best[h - 1][u];
            match reached {
                Some(amount) => {
                    let mut j: usize = 0;
                    while j < g.adj[u].len()
                        invariant
                            g.wf(),
                            n == g.n_assets,
                            u < n,
                            1 <= h,
                            j <= g.adj@[u as int]@.len(),
                            levels_best@.len() == h,
                            (#[trigger] levels_best@[h - 1])@.len() == n,
                            levels_best@[h - 1]@[u as int] == Some(amount),
                            cur@.len() == n,
                            cur_pred@.len() == n,
                            forall|v: int|
                                0 <= v < n ==> cyc_pred_ok(
                                    *g,
                                    levels_best@[h - 1]@,
                                    v,
                                    min_liquidity_ppm,
                                    #[trigger] cur_pred@[v],
                                ),
                            forall|v: int|
                                0 <= v < n ==> cyc_link_ok(
                                    levels_best@[h - 1]@,
                                    cur@[v],
                                    #[trigger] cur_pred@[v],
                                ),
                            forall|v: int|
                                0 <= v < n && (#[trigger] cur@[v]).is_some()
                                    ==> cur_pred@[v].is_some(),
                            forall|u2: int, j2: int|
                                0 <= u2 < u && 0 <= j2 < g.adj@[u2]@.len() && g.adj@[u2]@[j2].liquidity_ppm
                                    >= min_liquidity_ppm && levels_best@[h - 1]@[u2].is_some()
                                    ==> cur@[(#[trigger] g.adj@[u2]@[j2]).to as int].is_some()
                                    && capped_step(
                                    cyc_cell_amount(levels_best@[h - 1]@[u2]),
                                    g.adj@[u2]@[j2].rate_ppm,
                                ) <= cyc_cell_amount(cur@[g.adj@[u2]@[j2].to as int]),
                            forall|j2: int|
                                0 <= j2 < j && g.adj@[u as int]@[j2].liquidity_ppm
                                    >= min_liquidity_ppm ==> cur@[(
                                #[trigger] g.adj@[u as int]@[j2]).to as int].is_some()
                                    && capped_step(
                                    amount as int,
                                    g.adj@[u as int]@[j2].rate_ppm,
                                ) <= cyc_cell_amount(cur@[g.adj@[u as int]@[j2].to as int]),
                        decreases g.adj@[u as int]@.len() - j,
                    {
                        let e = g.adj[u][j];
                        proof {
                            assert(e.edge_ok(g.n_assets));
                        }
                        if e.liquidity_ppm >= min_liquidity_ppm {
                            let na = match apply_rate(amount, e.rate_ppm) {
                                Some(v) => v,
                                None => u64::MAX,
                            };
                            proof {
                                assert(na as int == capped_step(amount as int, e.rate_ppm));
                            }
                            let existing = cur[e.to];
                            let better = match existing {
                                None => true,
                                Some(a2) => na > a2,
                            };
                            if better {
                                let ghost cur0 = cur@;
                                let ghost cur_pred0 = cur_pred@;
                                cur[e.to] = Some(na);
                                cur_pred[e.to] = Some(Hop { from: u, edge: e });
                                proof {
                                    assert(cur@ == cur0.update(e.to as int, Some(na)));
                                    assert(cur_pred@ == cur_pred0.update(
                                        e.to as int,
                                        Some(Hop { from: u, edge: e }),
                                    ));
                                    assert(g.has_edge(u as int, e)) by {
                                        assert(g.adj@[u as int]@[j as int] == e);
                                        assert(g.adj@[u as int]@.contains(e));
                                    }
                                    assert(cyc_cell_amount(cur0[e.to as int]) <= na as int);
                                    assert forall|v: int| 0 <= v < n implies cyc_pred_ok(
                                        *g,
                                        levels_best@[h - 1]@,
                                        v,
                                        min_liquidity_ppm,
                                        #[trigger] cur_pred@[v],
                                    ) by {
                                        if v != e.to as int {
                                            assert(cur_pred@[v] == cur_pred0[v]);
                                        }
                                    }
                                    assert forall|v: int| 0 <= v < n implies cyc_link_ok(
                                        levels_best@[h - 1]@,
                                        cur@[v],
                                        #[trigger] cur_pred@[v],
                                    ) by {
                                        if v != e.to as int {
                                            assert(cur@[v] == cur0[v]);
                                            assert(cur_pred@[v] == cur_pred0[v]);
                                        }
                                    }
                                    assert forall|v: int|
                                        0 <= v < n && (#[trigger] cur@[v]).is_some()
                                            implies cur_pred@[v].is_some() by {
                                        if v != e.to as int {
                                            assert(cur@[v] == cur0[v]);
                                            assert(cur_pred@[v] == cur_pred0[v]);
                                        }
                                    }
                                    assert forall|u2: int, j2: int|
                                        0 <= u2 < u && 0 <= j2 < g.adj@[u2]@.len()
                                            && g.adj@[u2]@[j2].liquidity_ppm >= min_liquidity_ppm
                                            && levels_best@[h - 1]@[u2].is_some() implies cur@[(
                                        #[trigger] g.adj@[u2]@[j2]).to as int].is_some()
                                        && capped_step(
                                        cyc_cell_amount(levels_best@[h - 1]@[u2]),
                                        g.adj@[u2]@[j2].rate_ppm,
                                    ) <= cyc_cell_amount(cur@[g.adj@[u2]@[j2].to as int]) by {
                                        let t = g.adj@[u2]@[j2].to as int;
                                        if t == e.to as int {
                                            assert(cyc_cell_amount(cur@[t]) == na as int);
                                        } else {
                                            assert(cur@[t] == cur0[t]);
                                        }
                                    }
                                    assert forall|j2: int|
                                        0 <= j2 < j + 1 && g.adj@[u as int]@[j2].liquidity_ppm
                                            >= min_liquidity_ppm implies cur@[(
                                        #[trigger] g.adj@[u as int]@[j2]).to as int].is_some()
                                        && capped_step(
                                        amount as int,
                                        g.adj@[u as int]@[j2].rate_ppm,
                                    ) <= cyc_cell_amount(cur@[g.adj@[u as int]@[j2].to as int]) by {
                                        let t = g.adj@[u as int]@[j2].to as int;
                                        if t == e.to as int {
                                            assert(cyc_cell_amount(cur@[t]) == na as int);
                                        } else {
                                            assert(cur@[t] == cur0[t]);
                                        }
                                    }
                                }
                            } else {
                                proof {
                                    assert(na as int <= cyc_cell_amount(cur@[e.to as int]));
                                    assert forall|j2: int|
                                        0 <= j2 < j + 1 && g.adj@[u as int]@[j2].liquidity_ppm
                                            >= min_liquidity_ppm implies cur@[(
                                        #[trigger] g.adj@[u as int]@[j2]).to as int].is_some()
                                        && capped_step(
                                        amount as int,
                                        g.adj@[u as int]@[j2].rate_ppm,
                                    ) <= cyc_cell_amount(cur@[g.adj@[u as int]@[j2].to as int]) by {
                                        if j2 == j {
                                            assert(cur@[e.to as int].is_some());
                                        }
                                    }
                                }
                            }
                        }
                        j = j + 1;
                    }
                },
                None => {},
            }
            proof {
                assert forall|u2: int, j2: int|
                    0 <= u2 < u + 1 && 0 <= j2 < g.adj@[u2]@.len() && g.adj@[u2]@[j2].liquidity_ppm
                        >= min_liquidity_ppm && levels_best@[h - 1]@[u2].is_some() implies cur@[(
                    #[trigger] g.adj@[u2]@[j2]).to as int].is_some() && capped_step(
                    cyc_cell_amount(levels_best@[h - 1]@[u2]),
                    g.adj@[u2]@[j2].rate_ppm,
                ) <= cyc_cell_amount(cur@[g.adj@[u2]@[j2].to as int]) by {}
            }
            u = u + 1;
        }
        let ghost lb0 = levels_best@;
        let ghost lp0 = levels_pred@;
        levels_best.push(cur);
        levels_pred.push(cur_pred);
        proof {
            assert(levels_best@ == lb0.push(cur));
            assert(levels_pred@ == lp0.push(cur_pred));
            assert forall|h2: int, v: int| 1 <= h2 < h + 1 && 0 <= v < n implies cyc_pred_ok(
                *g,
                levels_best@[h2 - 1]@,
                v,
                min_liquidity_ppm,
                #[trigger] levels_pred@[h2]@[v],
            ) by {
                if h2 < h {
                    assert(levels_pred@[h2] == lp0[h2]);
                    assert(levels_best@[h2 - 1] == lb0[h2 - 1]);
                } else {
                    assert(levels_pred@[h2]@[v] == cur_pred@[v]);
                    assert(levels_best@[h2 - 1] == lb0[h - 1]);
                }
            }
            assert forall|h2: int, v: int| 1 <= h2 < h + 1 && 0 <= v < n implies cyc_link_ok(
                levels_best@[h2 - 1]@,
                levels_best@[h2]@[v],
                #[trigger] levels_pred@[h2]@[v],
            ) by {
                if h2 < h {
                    assert(levels_pred@[h2] == lp0[h2]);
                    assert(levels_best@[h2] == lb0[h2]);
                    assert(levels_best@[h2 - 1] == lb0[h2 - 1]);
                } else {
                    assert(levels_pred@[h2]@[v] == cur_pred@[v]);
                    assert(levels_best@[h2]@[v] == cur@[v]);
                    assert(levels_best@[h2 - 1] == lb0[h - 1]);
                }
            }
            assert forall|h2: int, v: int|
                1 <= h2 < h + 1 && 0 <= v < n && (#[trigger] levels_best@[h2]@[v]).is_some()
                    implies levels_pred@[h2]@[v].is_some() by {
                if h2 < h {
                    assert(levels_best@[h2] == lb0[h2]);
                    assert(levels_pred@[h2] == lp0[h2]);
                } else {
                    assert(levels_best@[h2]@[v] == cur@[v]);
                    assert(levels_pred@[h2]@[v] == cur_pred@[v]);
                }
            }
            assert forall|assets2: Seq<usize>, hops2: Seq<Hop>|
                #[trigger] floor_chain_from(*g, start, assets2, hops2, min_liquidity_ppm)
                    && hops2.len() < h + 1
                    implies levels_best@[hops2.len() as int]@[assets2.last() as int].is_some()
                && compound_capped(borrow as int, hop_rates(hops2)) <= cyc_cell_amount(
                levels_best@[hops2.len() as int]@[assets2.last() as int],
            ) by {
                if hops2.len() < h {
                    assert(levels_best@[hops2.len() as int] == lb0[hops2.len() as int]);
                } else {
                    // A floor chain of exactly h hops: its prefix is bounded
                    // by the previous level's cell, and relaxing its final
                    // edge carried that bound to this level.
                    let pa = assets2.drop_last();
                    let ph = hops2.drop_last();
                    lemma_floor_chain_prefix(*g, start, assets2, hops2, min_liquidity_ppm);
                    lemma_floor_chain_last_in_range(*g, start, pa, ph, min_liquidity_ppm);
                    let u2 = pa.last();
                    assert(lb0[ph.len() as int]@[u2 as int].is_some());
                    assert(compound_capped(borrow as int, hop_rates(ph)) <= cyc_cell_amount(
                        lb0[ph.len() as int]@[u2 as int],
                    ));
                    let e = hops2.last().edge;
                    assert(hops2.last().from == u2);
                    assert(g.has_edge(u2 as int, e));
                    assert(e.liquidity_ppm >= min_liquidity_ppm) by {
                        assert(hops2[hops2.len() - 1].edge.liquidity_ppm >= min_liquidity_ppm);
                    }
                    assert(e.to == assets2.last()) by {
                        assert(hops2[hops2.len() - 1].edge.to == assets2[hops2.len() as int]);
                        assert(assets2.last() == assets2[assets2.len() - 1]);
                    }
                    let j2 = choose|j2: int|
                        0 <= j2 < g.adj@[u2 as int]@.len() && #[trigger] g.adj@[u2 as int]@[j2]
                            == e;
                    assert(levels_best@[h - 1] == lb0[h - 1]);
                    assert(cur@[g.adj@[u2 as int]@[j2].to as int].is_some());
                    assert(capped_step(
                        cyc_cell_amount(lb0[(h - 1) as int]@[u2 as int]),
                        e.rate_ppm,
                    ) <= cyc_cell_amount(cur@[e.to as int]));
                    assert(hop_rates(ph).push(e.rate_ppm) =~= hop_rates(hops2));
                    lemma_compound_capped_push(borrow as int, hop_rates(ph), e.rate_ppm);
                    let cp = compound_capped(borrow as int, hop_rates(ph));
                    let pb = cyc_cell_amount(lb0[(h - 1) as int]@[u2 as int]);
                    assert(cp <= pb);
                    lemma_mul_inequality(cp, pb, e.rate_ppm as int);
                    lemma_div_is_ordered(cp * e.rate_ppm, pb * e.rate_ppm, RATE_SCALE as int);
                    assert(capped_step(cp, e.rate_ppm) <= capped_step(pb, e.rate_ppm));
                    assert(compound_capped(borrow as int, hop_rates(hops2)) <= cyc_cell_amount(
                        cur@[e.to as int],
                    ));
                    assert(levels_best@[hops2.len() as int]@ == cur@);
                }
            }
        }
        h = h + 1;
    }
    // The best level at which the walk returns to its start; level 0 is the
    // trivial stay-put walk and is not a cycle.
    let mut found: Option<usize> = None;
    let mut best_amt: u64 = 0;
    let mut h2: usize = 1;
    while h2 <= max_cycle_hops
        invariant
            max_cycle_hops < usize::MAX,
            1 <= h2 <= max_cycle_hops + 1,
            levels_best@.len() == max_cycle_hops + 1,
            forall|h3: int|
                0 <= h3 < max_cycle_hops + 1 ==> (#[trigger] levels_best@[h3])@.len() == n,
            start < n,
            match found {
                Some(hf) => 1 <= hf <= max_cycle_hops && levels_best@[hf as int]@[start as int]
                    == Some(best_amt) && forall|h3: int|
                    1 <= h3 < h2 ==> cyc_cell_amount(#[trigger] levels_best@[h3]@[start as int])
                        <= best_amt as int,
                None => forall|h3: int|
                    1 <= h3 < h2 ==> !(#[trigger] levels_best@[h3]@[start as int]).is_some(),
            },
        decreases max_cycle_hops + 1 - h2,
    {
        let reached = levels_best[h2][start];
        match reached {
            Some(a) => {
                let take = match found {
                    None => true,
                    Some(_) => a > best_amt,
                };
                if take {
                    found = Some(h2);
                    best_amt = a;
                }
            },
            None => {},
        }
        h2 = h2 + 1;
    }
    match found {
        None => {
            proof {
                assert forall|assets2: Seq<usize>, hops2: Seq<Hop>|
                    !(#[trigger] floor_chain_from(*g, start, assets2, hops2, min_liquidity_ppm)
                        && assets2.last() == start && 1 <= hops2.len() <= max_cycle_hops) by {
                    if floor_chain_from(*g, start, assets2, hops2, min_liquidity_ppm)
                        && assets2.last() == start && 1 <= hops2.len() <= max_cycle_hops {
                        assert(levels_best@[hops2.len() as int]@[start as int].is_some());
                        assert(!levels_best@[hops2.len() as int]@[start as int].is_some());
                        assert(false);
                    }
                }
            }
            None
        },
        Some(hf) => {
            let mut rev_hops: Vec<Hop> = Vec::new();
            let mut vcur: usize = start;
            let mut hcur: usize = hf;
            while hcur > 0
                invariant
                    g.wf(),
                    n == g.n_assets,
                    start < n,
                    hcur <= hf <= max_cycle_hops,
                    1 <= hf,
                    vcur < n,
                    levels_best@.len() == max_cycle_hops + 1,
                    levels_pred@.len() == max_cycle_hops + 1,
                    forall|h3: int|
                        0 <= h3 < max_cycle_hops + 1 ==> (#[trigger] levels_best@[h3])@.len() == n,
                    forall|h3: int|
                        0 <= h3 < max_cycle_hops + 1 ==> (#[trigger] levels_pred@[h3])@.len() == n,
                    forall|v: int|
                        0 <= v < n ==> (#[trigger] levels_best@[0]@[v]) == (if v == start as int {
                            Some(borrow)
                        } else {
                            None::<u64>
                        }),
                    forall|h3: int, v: int|
                        1 <= h3 < max_cycle_hops + 1 && 0 <= v < n ==> cyc_pred_ok(
                            *g,
                            levels_best@[h3 - 1]@,
                            v,
                            min_liquidity_ppm,
                            #[trigger] levels_pred@[h3]@[v],
                        ),
                    forall|h3: int, v: int|
                        1 <= h3 < max_cycle_hops + 1 && 0 <= v < n ==> cyc_link_ok(
                            levels_best@[h3 - 1]@,
                            levels_best@[h3]@[v],
                            #[trigger] levels_pred@[h3]@[v],
                        ),
                    forall|h3: int, v: int|
                        1 <= h3 < max_cycle_hops + 1 && 0 <= v < n && (
                        #[trigger] levels_best@[h3]@[v]).is_some() ==> levels_pred@[h3]@[v].is_some(),
                    levels_best@[hcur as int]@[vcur as int].is_some(),
                    rev_capped_amount(
                        cyc_cell_amount(levels_best@[hcur as int]@[vcur as int]),
                        rev_hops@,
                    ) == best_amt as int,
                    rev_hops@.len() == hf - hcur,
                    forall|i: int|
                        0 <= i < rev_hops@.len() ==> (#[trigger] rev_hops@[i]).from < n
                            && g.has_edge(rev_hops@[i].from as int, rev_hops@[i].edge)
                            && rev_hops@[i].edge.liquidity_ppm >= min_liquidity_ppm,
                    rev_hops@.len() > 0 ==> rev_hops@[0].edge.to == start,
                    forall|i: int|
                        0 <= i < rev_hops@.len() - 1 ==> (#[trigger] rev_hops@[i]).from
                            == rev_hops@[i + 1].edge.to,
                    rev_hops@.len() > 0 ==> vcur == rev_hops@.last().from,
                    rev_hops@.len() == 0 ==> vcur == start,
                decreases hcur,
            {
                let hop = levels_pred[hcur][vcur].unwrap();
                let ghost rh0 = rev_hops@;
                rev_hops.push(hop);
                proof {
                    assert(cyc_pred_ok(
                        *g,
                        levels_best@[hcur - 1]@,
                        vcur as int,
                        min_liquidity_ppm,
                        levels_pred@[hcur as int]@[vcur as int],
                    ));
                    assert(cyc_link_ok(
                        levels_best@[hcur - 1]@,
                        levels_best@[hcur as int]@[vcur as int],
                        levels_pred@[hcur as int]@[vcur as int],
                    ));
                    assert(rev_hops@.last() == hop);
                    assert(rev_hops@.drop_last() =~= rh0);
                    assert(capped_step(
                        cyc_cell_amount(levels_best@[hcur - 1]@[hop.from as int]),
                        hop.edge.rate_ppm,
                    ) == cyc_cell_amount(levels_best@[hcur as int]@[vcur as int]));
                    assert(rev_capped_amount(
                        cyc_cell_amount(levels_best@[hcur - 1]@[hop.from as int]),
                        rev_hops@,
                    ) == best_amt as int);
                    assert forall|i: int|
                        0 <= i < rev_hops@.len() - 1 implies (#[trigger] rev_hops@[i]).from
                        == rev_hops@[i + 1].edge.to by {
                        if i < rh0.len() - 1 {
                            assert(rev_hops@[i] == rh0[i]);
                            assert(rev_hops@[i + 1] == rh0[i + 1]);
                        } else {
                            assert(rev_hops@[i] == rh0[i]);
                            assert(rev_hops@[i + 1] == hop);
                        }
                    }
                }
                vcur = hop.from;
                hcur = hcur - 1;
            }
            proof {
                assert(levels_best@[0]@[vcur as int].is_some());
                assert(vcur == start);
                assert(rev_capped_amount(borrow as int, rev_hops@) == best_amt as int);
            }
            let mut hops: Vec<Hop> = Vec::new();
            let total = rev_hops.len();
            let mut i: usize = total;
            while i > 0
                invariant
                    i <= total,
                    total == rev_hops@.len(),
                    hops@.len() == total - i,
                    forall|k: int|
                        0 <= k < hops@.len() ==> #[trigger] hops@[k] == rev_hops@[total - 1 - k],
                decreases i,
            {
                i = i - 1;
                hops.push(rev_hops[i]);
            }
            proof {
                assert(hops@.len() == hf);
                if hops@.len() > 0 {
                    assert(hops@[0] == rev_hops@[total - 1]);
                    assert(hops@[hops@.len() - 1] == rev_hops@[0]);
                }
                assert forall|k: int|
                    0 <= k < hops@.len() - 1 implies (#[trigger] hops@[k]).edge.to
                    == hops@[k + 1].from by {
                    assert(hops@[k] == rev_hops@[total - 1 - k]);
                    assert(hops@[k + 1] == rev_hops@[total - 1 - (k + 1)]);
                    assert(rev_hops@[total - 2 - k].from == rev_hops@[total - 1 - k].edge.to);
                }
                assert forall|k: int|
                    0 <= k < hops@.len() implies (#[trigger] hops@[k]).from < n && g.has_edge(
                    hops@[k].from as int,
                    hops@[k].edge,
                ) && hops@[k].edge.liquidity_ppm >= min_liquidity_ppm by {
                    assert(hops@[k] == rev_hops@[total - 1 - k]);
                }
                lemma_rev_capped_matches(borrow as int, rev_hops@, hops@);
                assert(compound_capped(borrow as int, hop_rates(hops@)) == best_amt as int);
            }
            let mut assets: Vec<usize> = Vec::new();
            assets.push(start);
            let n_hops = hops.len();
            let mut k: usize = 0;
            while k < n_hops
                invariant
                    k <= n_hops,
                    n_hops == hops@.len(),
                    assets@.len() == k + 1,
                    assets@[0] == start,
                    hops@.len() > 0 ==> hops@[0].from == start,
                    forall|t: int|
                        0 <= t < hops@.len() - 1 ==> (#[trigger] hops@[t]).edge.to == hops@[t
                            + 1].from,
                    forall|t: int|
                        0 <= t < k ==> (#[trigger] hops@[t]).from == assets@[t] && hops@[t].edge.to
                            == assets@[t + 1],
                decreases n_hops - k,
            {
                let hk = hops[k];
                let ghost assets0 = assets@;
                assets.push(hk.edge.to);
                proof {
                    assert(assets@ == assets0.push(hk.edge.to));
                    assert(hops@[k as int].from == assets@[k as int]) by {
                        if k > 0 {
                            assert(hops@[k - 1].edge.to == assets0[k as int]);
                            assert(hops@[k - 1].edge.to == hops@[k as int].from);
                        }
                    }
                    assert forall|t: int|
                        0 <= t < k + 1 implies (#[trigger] hops@[t]).from == assets@[t]
                        && hops@[t].edge.to == assets@[t + 1] by {
                        if t < k {
                            assert(assets@[t] == assets0[t]);
                            assert(assets@[t + 1] == assets0[t + 1]);
                        } else {
                            assert(assets@[t + 1] == hk.edge.to);
                        }
                    }
                }
                k = k + 1;
            }
            // Recompute the gross output, saturating exactly as the
            // relaxation did.
            let ghost rates = hop_rates(hops@);
            proof {
                assert(rates.skip(0) =~= rates);
            }
            let mut out: u64 = borrow;
            let mut t: usize = 0;
            while t < n_hops
                invariant
                    t <= n_hops,
                    n_hops == hops@.len(),
                    rates == hop_rates(hops@),
                    rates.len() == n_hops,
                    compound_capped(borrow as int, rates) == compound_capped(
                        out as int,
                        rates.skip(t as int),
                    ),
                decreases n_hops - t,
            {
                let e = hops[t].edge;
                proof {
                    assert(rates[t as int] == e.rate_ppm);
                    assert(rates.skip(t as int).len() > 0);
                    assert(rates.skip(t as int)[0] == rates[t as int]);
                    assert(rates.skip(t as int).drop_first() =~= rates.skip(t as int + 1));
                }
                out = match apply_rate(out, e.rate_ppm) {
                    Some(v) => v,
                    None => u64::MAX,
                };
                t = t + 1;
            }
            proof {
                assert(rates.skip(n_hops as int) =~= Seq::<u64>::empty());
                assert(compound_capped(borrow as int, rates) == out);
                assert(out == best_amt);
                assert(chain_ok(*g, assets@, hops@));
                assert(assets@.last() == start) by {
                    if hops@.len() > 0 {
                        assert(hops@[hops@.len() - 1].edge.to == assets@[assets@.len() - 1]);
                        assert(hops@[hops@.len() - 1] == rev_hops@[0]);
                    }
                }
                // No floor cycle through the start beats the chosen level.
                assert forall|assets2: Seq<usize>, hops2: Seq<Hop>|
                    #[trigger] floor_chain_from(*g, start, assets2, hops2, min_liquidity_ppm)
                        && assets2.last() == start && 1 <= hops2.len() <= max_cycle_hops
                        implies compound_capped(borrow as int, hop_rates(hops2)) <= out as int by {
                    assert(levels_best@[hops2.len() as int]@[start as int].is_some());
                    assert(compound_capped(borrow as int, hop_rates(hops2)) <= cyc_cell_amount(
                        levels_best@[hops2.len() as int]@[start as int],
                    ));
                    assert(cyc_cell_amount(levels_best@[hops2.len() as int]@[start as int])
                        <= best_amt as int);
                }
            }
            Some((assets, hops, out))
        },
    }
}

/// Whether a detected cycle clears every profitability bar.
pub fn cycle_qualifies(gross_output: u64, borrow: u64, gas_cost: u64, min_profit_bps: u64) -> (r:
    bool)
    requires
        borrow > 0,
    ensures
        r <==> spec_cycle_qualifies(gross_output, borrow, gas_cost, min_profit_bps),
{
    if gross_output <= borrow {
        return false;
    }
    let gross_profit = gross_output - borrow;
    proof {
        lemma_mul_upper_bound(borrow as int, u64::MAX as int, FLASH_LOAN_FEE_BPS as int, BPS_SCALE as int);
        lemma_mul_nonnegative(borrow as int, FLASH_LOAN_FEE_BPS as int);
        lemma_mul_upper_bound(gross_profit as int, u64::MAX as int, BPS_SCALE as int, BPS_SCALE as int);
        lemma_mul_nonnegative(gross_profit as int, BPS_SCALE as int);
    }
    let flash_fee: u128 = (borrow as u128) * (FLASH_LOAN_FEE_BPS as u128) / (BPS_SCALE as u128);
    let net_pos = (gross_profit as u128) > flash_fee + (gas_cost as u128);
    let bps = (gross_profit as u128) * (BPS_SCALE as u128) / (borrow as u128);
    let bps_ok = bps >= min_profit_bps as u128;
    net_pos && bps_ok
}

/// Scans the whole graph for profitable cycles. Every returned cycle is a
/// real closed chain over the liquidity floor that clears the flash-loan
/// fee, the gas cost and the minimum-profit threshold; and for every asset
/// through which some qualifying floor cycle runs, a cycle starting there is
/// returned.
pub fn scan(
    g: &LiquidityGraph,
    min_profit_bps: u64,
    max_borrow_amount: u64,
    max_cycle_hops: usize,
    min_liquidity_ppm: u64,
    gas_cost: u64,
) -> (r: Vec<ArbitrageCycle>)
    requires
        g.wf(),
        max_borrow_amount > 0,
        max_cycle_hops < usize::MAX,
    ensures
        forall|i: int|
            0 <= i < r@.len() ==> reported_cycle_ok(
                *g,
                #[trigger] r@[i],
                max_borrow_amount,
                min_profit_bps,
                min_liquidity_ppm,
                gas_cost,
                max_cycle_hops,
            ),
        forall|s: usize|
            s < g.n_assets ==> #[trigger] start_covered(
                *g,
                r@,
                s,
                max_borrow_amount,
                min_profit_bps,
                min_liquidity_ppm,
                gas_cost,
                max_cycle_hops,
            ),
{
    let n = g.n_assets;
    let mut result: Vec<ArbitrageCycle> = Vec::new();
    let mut s: usize = 0;
    while s < n
        invariant
            g.wf(),
            n == g.n_assets,
            s <= n,
            max_borrow_amount > 0,
            max_cycle_hops < usize::MAX,
            forall|i: int|
                0 <= i < result@.len() ==> reported_cycle_ok(
                    *g,
                    #[trigger] result@[i],
                    max_borrow_amount,
                    min_profit_bps,
                    min_liquidity_ppm,
                    gas_cost,
                    max_cycle_hops,
                ),
            forall|s2: usize|
                s2 < s ==> #[trigger] start_covered(
                    *g,
                    result@,
                    s2,
                    max_borrow_amount,
                    min_profit_bps,
                    min_liquidity_ppm,
                    gas_cost,
                    max_cycle_hops,
                ),
        decreases n - s,
    {
        let found = find_cycle(g, s, max_borrow_amount, max_cycle_hops, min_liquidity_ppm);
        let ghost res0 = result@;
        let ghost mut qualified: bool = false;
        match found {
            Some((assets, hops, gross)) => {
                let q = cycle_qualifies(gross, max_borrow_amount, gas_cost, min_profit_bps);
                proof {
                    qualified = q;
                }
                if q {
                    proof {
                        lemma_mul_nonnegative(max_borrow_amount as int, FLASH_LOAN_FEE_BPS as int);
                        lemma_div_pos_is_pos(
                            (max_borrow_amount * FLASH_LOAN_FEE_BPS) as int,
                            BPS_SCALE as int,
                        );
                        lemma_mul_inequality(
                            FLASH_LOAN_FEE_BPS as int,
                            BPS_SCALE as int,
                            max_borrow_amount as int,
                        );
                        lemma_div_is_ordered(
                            (max_borrow_amount * FLASH_LOAN_FEE_BPS) as int,
                            (max_borrow_amount * BPS_SCALE) as int,
                            BPS_SCALE as int,
                        );
                        lemma_div_multiples_vanish(max_borrow_amount as int, BPS_SCALE as int);
                        lemma_mul_upper_bound(
                            max_borrow_amount as int,
                            u64::MAX as int,
                            FLASH_LOAN_FEE_BPS as int,
                            BPS_SCALE as int,
                        );
                        lemma_mul_upper_bound(
                            (gross - max_borrow_amount) as int,
                            u64::MAX as int,
                            BPS_SCALE as int,
                            BPS_SCALE as int,
                        );
                        lemma_mul_nonnegative((gross - max_borrow_amount) as int, BPS_SCALE as int);
                        lemma_div_pos_is_pos(
                            ((gross - max_borrow_amount) * BPS_SCALE) as int,
                            max_borrow_amount as int,
                        );
                    }
                    let flash_fee: u64 = ((max_borrow_amount as u128)
                        * (FLASH_LOAN_FEE_BPS as u128) / (BPS_SCALE as u128)) as u64;
                    let gross_profit = gross - max_borrow_amount;
                    let net_profit = gross_profit - flash_fee - gas_cost;
                    let bps_wide: u128 = (gross_profit as u128) * (BPS_SCALE as u128)
                        / (max_borrow_amount as u128);
                    let profit_bps: u64 = if bps_wide <= u64::MAX as u128 {
                        bps_wide as u64
                    } else {
                        u64::MAX
                    };
                    let cycle = ArbitrageCycle {
                        assets,
                        hops,
                        borrow_amount: max_borrow_amount,
                        gross_output: gross,
                        net_profit,
                        profit_bps,
                    };
                    result.push(cycle);
                    proof {
                        assert forall|i: int| 0 <= i < result@.len() implies reported_cycle_ok(
                            *g,
                            #[trigger] result@[i],
                            max_borrow_amount,
                            min_profit_bps,
                            min_liquidity_ppm,
                            gas_cost,
                            max_cycle_hops,
                        ) by {
                            if i < res0.len() {
                                assert(result@[i] == res0[i]);
                            } else {
                                assert(result@[i] == cycle);
                            }
                        }
                    }
                }
            },
            None => {},
        }
        proof {
            // Every start below s + 1 is covered: earlier starts keep their
            // witnesses, and the current one either contributed a cycle or
            // provably has nothing that qualifies.
            assert forall|s2: usize| s2 < s + 1 implies #[trigger] start_covered(
                *g,
                result@,
                s2,
                max_borrow_amount,
                min_profit_bps,
                min_liquidity_ppm,
                gas_cost,
                max_cycle_hops,
            ) by {
                assert forall|assets2: Seq<usize>, hops2: Seq<Hop>|
                    #[trigger] floor_chain_from(*g, s2, assets2, hops2, min_liquidity_ppm)
                        && assets2.last() == s2 && 1 <= hops2.len() <= max_cycle_hops
                        && spec_cycle_qualifies(
                        compound_capped(max_borrow_amount as int, hop_rates(hops2)) as u64,
                        max_borrow_amount,
                        gas_cost,
                        min_profit_bps,
                    ) implies exists|i: int|
                    0 <= i < result@.len() && (#[trigger] result@[i]).assets@[0] == s2 by {
                    crate::rate::lemma_compound_capped_bounds(
                        max_borrow_amount as int,
                        hop_rates(hops2),
                    );
                    if s2 < s {
                        assert(start_covered(
                            *g,
                            res0,
                            s2,
                            max_borrow_amount,
                            min_profit_bps,
                            min_liquidity_ppm,
                            gas_cost,
                            max_cycle_hops,
                        ));
                        let i0 = choose|i: int|
                            0 <= i < res0.len() && (#[trigger] res0[i]).assets@[0] == s2;
                        assert(result@[i0] == res0[i0]);
                    } else {
                        match found {
                            Some(c) => {
                                assert(compound_capped(
                                    max_borrow_amount as int,
                                    hop_rates(hops2),
                                ) <= c.2 as int);
                                lemma_qualifies_monotone(
                                    compound_capped(
                                        max_borrow_amount as int,
                                        hop_rates(hops2),
                                    ) as u64,
                                    c.2,
                                    max_borrow_amount,
                                    gas_cost,
                                    min_profit_bps,
                                );
                                assert(qualified);
                                assert(result@[result@.len() - 1].assets@[0] == s2);
                            },
                            None => {
                                assert(false);
                            },
                        }
                    }
                }
            }
        }
        s = s + 1;
    }
    result
}

} // verus!
