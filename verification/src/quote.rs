//! Quoting: turning a route and a wanted destination amount into the source
//! amount that must be paid, under a dynamic slippage model.
//!
//! The required source amount inverts the route's per-hop compounded rate
//! with ceiling divisions, from the last hop back to the first, and then adds
//! the resolved slippage buffer once on top.

use vstd::prelude::*;
use crate::errors::CoreError;
use crate::graph::LiquidityGraph;
use crate::path::{
    Hop, Route, chain_from, find_route, hop_rates, path_exists, route_amounts_ok, route_wf,
};
use crate::rate::{
    BPS_SCALE, RATE_SCALE, ceil_div, compound_int, invert_compound, lemma_invert_ge,
    lemma_invert_split, lemma_invert_unfold_front,
};
use vstd::arithmetic::div_mod::{lemma_div_is_ordered, lemma_div_multiples_vanish, lemma_div_pos_is_pos};
use vstd::arithmetic::mul::{lemma_mul_inequality, lemma_mul_nonnegative, lemma_mul_upper_bound};

verus! {

/// Largest accepted volatility multiplier: one thousand wholes, in ppm.
pub const MAX_VOLATILITY_MULTIPLIER_PPM: u64 = 1_000_000_000;

/// Dynamic slippage configuration, all in basis points except the
/// multiplier.
#[derive(Clone, Copy, Debug)]
pub struct SlippageConfig {
    /// Base slippage in basis points.
    pub base_bps: u32,
    /// How strongly volatility raises the base, in ppm of one whole.
    pub volatility_multiplier_ppm: u64,
    pub max_bps: u32,
    pub min_bps: u32,
    pub dynamic_adjustment: bool,
}

impl SlippageConfig {
    /// The band is ordered, holds the base, and the multiplier is sane.
    pub open spec fn wf(self) -> bool {
        &&& self.min_bps <= self.base_bps <= self.max_bps
        &&& self.volatility_multiplier_ppm <= MAX_VOLATILITY_MULTIPLIER_PPM
    }
}

impl Default for SlippageConfig {
    /// The stock configuration: 50 bps base, doubled per unit of volatility,
    /// clamped to [10, 500] bps.
    fn default() -> (r: Self)
        ensures
            r.base_bps == 50,
            r.volatility_multiplier_ppm == 2_000_000,
            r.max_bps == 500,
            r.min_bps == 10,
            r.dynamic_adjustment,
            r.wf(),
    {
        SlippageConfig {
            base_bps: 50,
            volatility_multiplier_ppm: 2_000_000,
            max_bps: 500,
            min_bps: 10,
            dynamic_adjustment: true,
        }
    }
}

/// The slippage the engine settles on: under dynamic adjustment, the base
/// scaled by `1 + volatility * multiplier` and clamped into the band; the
/// bare base otherwise.
pub open spec fn spec_resolved_slippage(cfg: SlippageConfig, volatility_ppm: u64) -> int {
    if cfg.dynamic_adjustment {
        let adjusted = (cfg.base_bps * ((RATE_SCALE as int) + (volatility_ppm
            * cfg.volatility_multiplier_ppm) / (RATE_SCALE as int))) / (RATE_SCALE as int);
        if adjusted < cfg.min_bps {
            cfg.min_bps as int
        } else if adjusted > cfg.max_bps {
            cfg.max_bps as int
        } else {
            adjusted
        }
    } else {
        cfg.base_bps as int
    }
}

/// Resolves the slippage for a volatility index in [0, 1] (in ppm).
pub fn resolve_slippage(cfg: &SlippageConfig, volatility_ppm: u64) -> (r: u32)
    requires
        cfg.wf(),
        volatility_ppm <= RATE_SCALE,
    ensures
        r == spec_resolved_slippage(*cfg, volatility_ppm),
        cfg.min_bps <= r <= cfg.max_bps,
{
    if cfg.dynamic_adjustment {
        proof {
            lemma_mul_upper_bound(
                volatility_ppm as int,
                RATE_SCALE as int,
                cfg.volatility_multiplier_ppm as int,
                MAX_VOLATILITY_MULTIPLIER_PPM as int,
            );
            lemma_mul_nonnegative(volatility_ppm as int, cfg.volatility_multiplier_ppm as int);
            lemma_div_pos_is_pos(
                (volatility_ppm * cfg.volatility_multiplier_ppm) as int,
                RATE_SCALE as int,
            );
        }
        let bump: u64 = volatility_ppm * cfg.volatility_multiplier_ppm / RATE_SCALE;
        let factor: u64 = RATE_SCALE + bump;
        proof {
            lemma_mul_upper_bound(
                cfg.base_bps as int,
                u32::MAX as int,
                factor as int,
                1_001_000_000,
            );
            lemma_mul_nonnegative(cfg.base_bps as int, factor as int);
            lemma_div_pos_is_pos((cfg.base_bps * factor) as int, RATE_SCALE as int);
        }
        let adjusted: u64 = (cfg.base_bps as u64) * factor / RATE_SCALE;
        if adjusted < cfg.min_bps as u64 {
            cfg.min_bps
        } else if adjusted > cfg.max_bps as u64 {
            cfg.max_bps
        } else {
            adjusted as u32
        }
    } else {
        cfg.base_bps
    }
}

/// For every volatility index in [0, 1], the resolved slippage stays within
/// the configured `[min_bps, max_bps]` band.
pub proof fn lemma_resolved_slippage_in_band(cfg: SlippageConfig, volatility_ppm: u64)
    requires
        cfg.wf(),
        volatility_ppm <= RATE_SCALE,
    ensures
        cfg.min_bps <= spec_resolved_slippage(cfg, volatility_ppm) <= cfg.max_bps,
{
}

/// A priced conversion: what must be paid for the wanted amount.
#[derive(Clone, Copy, Debug)]
pub struct Quote {
    pub source_amount: u64,
    pub destination_amount: u64,
    pub slippage_bps: u32,
    pub price_impact_ppm: u64,
}

/// The exact source amount owed: the destination amount run backwards
/// through every hop with ceiling divisions, plus the slippage buffer once.
pub open spec fn spec_required_source(dest: u64, rates: Seq<u64>, slippage_bps: int) -> int {
    ceil_div(
        invert_compound(dest as int, rates) * ((BPS_SCALE as int) + slippage_bps),
        BPS_SCALE as int,
    )
}

/// Every hop's rate is positive and at most one whole.
pub open spec fn route_rates_ok(r: Route) -> bool {
    forall|i: int|
        0 <= i < r.hops@.len() ==> 1 <= (#[trigger] r.hops@[i]).edge.rate_ppm <= RATE_SCALE
}

/// Adding the slippage buffer never shrinks the amount.
proof fn lemma_buffer_ge(x: int, s: int)
    requires
        0 <= x,
        0 <= s,
    ensures
        ceil_div(x * ((BPS_SCALE as int) + s), BPS_SCALE as int) >= x,
{
    lemma_mul_inequality(BPS_SCALE as int, (BPS_SCALE as int) + s, x);
    lemma_div_is_ordered(
        x * (BPS_SCALE as int),
        x * ((BPS_SCALE as int) + s) + (BPS_SCALE as int) - 1,
        BPS_SCALE as int,
    );
    lemma_div_multiples_vanish(x, BPS_SCALE as int);
}

/// Prices `destination_amount` over the route. Fails with `Unavailable`
/// exactly when the wanted amount is zero, the route is empty, or the
/// required source amount does not fit in an amount.
pub fn quote(
    route: &Route,
    destination_amount: u64,
    cfg: &SlippageConfig,
    volatility_ppm: u64,
) -> (r: Result<Quote, CoreError>)
    requires
        cfg.wf(),
        volatility_ppm <= RATE_SCALE,
        route_rates_ok(*route),
    ensures
        ({
            let slip = spec_resolved_slippage(*cfg, volatility_ppm);
            let src = spec_required_source(destination_amount, hop_rates(route.hops@), slip);
            match r {
                Ok(q) => {
                    &&& destination_amount > 0
                    &&& route.hops@.len() >= 1
                    &&& src <= u64::MAX
                    &&& q.source_amount == src
                    &&& q.destination_amount == destination_amount
                    &&& q.slippage_bps == slip
                    &&& q.price_impact_ppm == route.price_impact_ppm
                },
                Err(e) => {
                    &&& e is Unavailable
                    &&& (destination_amount == 0 || route.hops@.len() == 0 || src > u64::MAX)
                },
            }
        }),
{
    let ghost rates = hop_rates(route.hops@);
    let n_hops = route.hops.len();
    if destination_amount == 0 || n_hops == 0 {
        return Err(CoreError::Unavailable);
    }
    let slippage_bps = resolve_slippage(cfg, volatility_ppm);
    proof {
        assert(rates.len() == n_hops);
        assert forall|i: int| 0 <= i < rates.len() implies 1 <= #[trigger] rates[i]
            <= RATE_SCALE by {
            assert(rates[i] == route.hops@[i].edge.rate_ppm);
        }
        assert(rates.skip(n_hops as int) =~= Seq::<u64>::empty());
    }
    let mut cur: u64 = destination_amount;
    let mut k: usize = n_hops;
    while k > 0
        invariant
            k <= n_hops,
            n_hops == route.hops@.len(),
            rates == hop_rates(route.hops@),
            rates.len() == n_hops,
            forall|i: int| 0 <= i < rates.len() ==> 1 <= #[trigger] rates[i] <= RATE_SCALE,
            cur == invert_compound(destination_amount as int, rates.skip(k as int)),
        decreases k,
    {
        let rate = route.hops[k - 1].edge.rate_ppm;
        proof {
            assert(rates[k - 1] == rate);
            lemma_invert_unfold_front(destination_amount as int, rates.skip(k - 1));
            assert(rates.skip(k - 1).drop_first() =~= rates.skip(k as int));
            assert(rates.skip(k - 1)[0] == rates[k - 1]);
            lemma_mul_upper_bound(cur as int, u64::MAX as int, RATE_SCALE as int, RATE_SCALE as int);
            lemma_mul_nonnegative(cur as int, RATE_SCALE as int);
        }
        let wide: u128 = ((cur as u128) * (RATE_SCALE as u128) + (rate as u128) - 1)
            / (rate as u128);
        if wide > u64::MAX as u128 {
            proof {
                // Whatever still lies ahead only grows the amount, so the
                // final required source cannot fit either.
                let inv_here = invert_compound(destination_amount as int, rates.skip(k - 1));
                assert(inv_here == wide);
                lemma_invert_split(destination_amount as int, rates, k - 1);
                assert forall|i: int|
                    0 <= i < rates.take(k - 1).len() implies 1 <= #[trigger] rates.take(k - 1)[i]
                    <= RATE_SCALE by {
                    assert(rates.take(k - 1)[i] == rates[i]);
                }
                lemma_invert_ge(inv_here, rates.take(k - 1));
                lemma_buffer_ge(
                    invert_compound(destination_amount as int, rates),
                    spec_resolved_slippage(*cfg, volatility_ppm),
                );
            }
            return Err(CoreError::Unavailable);
        }
        cur = wide as u64;
        k = k - 1;
    }
    proof {
        assert(rates.skip(0) =~= rates);
        assert(cur == invert_compound(destination_amount as int, rates));
        lemma_mul_upper_bound(
            cur as int,
            u64::MAX as int,
            (BPS_SCALE as int) + slippage_bps,
            (BPS_SCALE as int) + (u32::MAX as int),
        );
        lemma_mul_nonnegative(cur as int, (BPS_SCALE as int) + slippage_bps);
    }
    let wide: u128 = ((cur as u128) * ((BPS_SCALE + slippage_bps as u64) as u128)
        + (BPS_SCALE as u128) - 1) / (BPS_SCALE as u128);
    if wide > u64::MAX as u128 {
        return Err(CoreError::Unavailable);
    }
    Ok(Quote {
        source_amount: wide as u64,
        destination_amount,
        slippage_bps,
        price_impact_ppm: route.price_impact_ppm,
    })
}

/// One decoded quote request.
#[derive(Clone, Copy, Debug)]
pub struct QuoteRequest {
    pub source_asset: usize,
    pub destination_asset: usize,
    pub destination_amount: u64,
    pub max_hops: usize,
}

/// The outcome of quoting one request.
#[derive(Clone, Debug)]
pub struct QuoteResult {
    pub available: bool,
    pub source_amount: u64,
    pub destination_amount: u64,
    /// The assets of the chosen route, source first; empty when unavailable.
    pub path: Vec<usize>,
    pub slippage_bps: u32,
    pub price_impact_ppm: u64,
}

/// `rt` is a route of `g` that serves the request, and `res` prices the
/// wanted amount over it.
pub open spec fn supports_quote(
    g: LiquidityGraph,
    req: QuoteRequest,
    cfg: SlippageConfig,
    volatility_ppm: u64,
    rt: Route,
    res: QuoteResult,
) -> bool {
    &&& route_wf(g, rt)
    &&& route_amounts_ok(rt)
    &&& rt.hops@.len() >= 1
    &&& rt.hops@.len() <= req.max_hops
    &&& rt.assets@[0] == req.source_asset
    &&& rt.assets@.last() == req.destination_asset
    &&& res.path@ == rt.assets@
    &&& res.source_amount == spec_required_source(
        req.destination_amount,
        hop_rates(rt.hops@),
        spec_resolved_slippage(cfg, volatility_ppm),
    )
    &&& res.slippage_bps == spec_resolved_slippage(cfg, volatility_ppm)
    &&& res.price_impact_ppm == rt.price_impact_ppm
}

/// `rt` is a best route of `g` serving the request — no chain within the hop
/// budget compounds the wanted amount to more — and its required source
/// amount does not fit in an amount.
pub open spec fn route_overflows(
    g: LiquidityGraph,
    req: QuoteRequest,
    cfg: SlippageConfig,
    volatility_ppm: u64,
    rt: Route,
) -> bool {
    &&& route_wf(g, rt)
    &&& route_amounts_ok(rt)
    &&& rt.input_amount == req.destination_amount
    &&& rt.hops@.len() >= 1
    &&& rt.hops@.len() <= req.max_hops
    &&& rt.assets@[0] == req.source_asset
    &&& rt.assets@.last() == req.destination_asset
    &&& forall|assets2: Seq<usize>, hops2: Seq<Hop>|
        #[trigger] chain_from(g, req.source_asset, assets2, hops2) && assets2.last()
            == req.destination_asset && hops2.len() <= req.max_hops ==> compound_int(
            req.destination_amount as int,
            hop_rates(hops2),
        ) <= rt.output_amount
    &&& spec_required_source(
        req.destination_amount,
        hop_rates(rt.hops@),
        spec_resolved_slippage(cfg, volatility_ppm),
    ) > u64::MAX
}

/// What quoting one request promises: an available result prices a real
/// route of the graph, an unavailable one names its reason.
pub open spec fn quote_outcome_ok(
    g: LiquidityGraph,
    req: QuoteRequest,
    cfg: SlippageConfig,
    volatility_ppm: u64,
    res: QuoteResult,
) -> bool {
    &&& res.destination_amount == req.destination_amount
    &&& res.available ==> exists|rt: Route|
        #[trigger] supports_quote(g, req, cfg, volatility_ppm, rt, res)
    &&& !res.available ==> {
        ||| req.destination_amount == 0
        ||| req.source_asset >= g.n_assets
        ||| req.destination_asset >= g.n_assets
        ||| req.source_asset == req.destination_asset
        ||| !path_exists(g, req.source_asset, req.destination_asset, req.max_hops)
        ||| exists|rt: Route| #[trigger] route_overflows(g, req, cfg, volatility_ppm, rt)
    }
}

/// An unavailable outcome for the request.
fn unavailable_result(req: &QuoteRequest) -> (res: QuoteResult)
    ensures
        !res.available,
        res.destination_amount == req.destination_amount,
{
    QuoteResult {
        available: false,
        source_amount: 0,
        destination_amount: req.destination_amount,
        path: Vec::new(),
        slippage_bps: 0,
        price_impact_ppm: 0,
    }
}

/// Quotes one request end to end: finds the best route, then prices the
/// wanted amount over it with the resolved slippage.
pub fn calculate_quote_with_slippage(
    g: &LiquidityGraph,
    req: &QuoteRequest,
    cfg: &SlippageConfig,
    volatility_ppm: u64,
) -> (res: QuoteResult)
    requires
        g.wf(),
        g.rates_bounded(),
        cfg.wf(),
        volatility_ppm <= RATE_SCALE,
        req.max_hops < usize::MAX,
    ensures
        quote_outcome_ok(*g, *req, *cfg, volatility_ppm, res),
{
    if req.destination_amount == 0 || req.source_asset >= g.n_assets || req.destination_asset
        >= g.n_assets || req.source_asset == req.destination_asset {
        return unavailable_result(req);
    }
    match find_route(g, req.source_asset, req.destination_asset, req.destination_amount, req.max_hops) {
        None => unavailable_result(req),
        Some(rt) => {
            proof {
                assert forall|i: int|
                    0 <= i < rt.hops@.len() implies 1 <= (#[trigger] rt.hops@[i]).edge.rate_ppm
                    <= RATE_SCALE by {
                    let e = rt.hops@[i].edge;
                    let f = rt.assets@[i] as int;
                    assert(g.has_edge(f, e));
                    let j = choose|j: int|
                        0 <= j < g.adj@[f]@.len() && #[trigger] g.adj@[f]@[j] == e;
                    assert(g.adj@[f]@[j].edge_ok(g.n_assets));
                    assert(g.adj@[f]@[j].rate_ppm + g.adj@[f]@[j].fee_ppm <= RATE_SCALE);
                }
                assert(rt.hops@.len() >= 1) by {
                    if rt.hops@.len() == 0 {
                        assert(rt.assets@.last() == rt.assets@[0]);
                    }
                }
            }
            match quote(&rt, req.destination_amount, cfg, volatility_ppm) {
                Ok(q) => {
                    let res = QuoteResult {
                        available: true,
                        source_amount: q.source_amount,
                        destination_amount: q.destination_amount,
                        path: rt.assets,
                        slippage_bps: q.slippage_bps,
                        price_impact_ppm: q.price_impact_ppm,
                    };
                    proof {
                        let rt2 = Route {
                            assets: rt.assets,
                            hops: rt.hops,
                            input_amount: rt.input_amount,
                            output_amount: rt.output_amount,
                            price_impact_ppm: rt.price_impact_ppm,
                        };
                        assert(supports_quote(*g, *req, *cfg, volatility_ppm, rt2, res));
                    }
                    res
                },
                Err(_) => {
                    let res = unavailable_result(req);
                    proof {
                        assert(route_overflows(*g, *req, *cfg, volatility_ppm, rt));
                    }
                    res
                },
            }
        },
    }
}

/// Quotes a whole batch of requests under one configuration and volatility
/// reading; result `i` answers request `i`.
pub fn batch_calculate_quotes(
    g: &LiquidityGraph,
    requests: &Vec<QuoteRequest>,
    cfg: &SlippageConfig,
    volatility_ppm: u64,
) -> (res: Vec<QuoteResult>)
    requires
        g.wf(),
        g.rates_bounded(),
        cfg.wf(),
        volatility_ppm <= RATE_SCALE,
        forall|i: int| 0 <= i < requests@.len() ==> (#[trigger] requests@[i]).max_hops < usize::MAX,
    ensures
        res@.len() == requests@.len(),
        forall|i: int|
            0 <= i < requests@.len() ==> quote_outcome_ok(
                *g,
                #[trigger] requests@[i],
                *cfg,
                volatility_ppm,
                res@[i],
            ),
{
    let n_req = requests.len();
    let mut out: Vec<QuoteResult> = Vec::new();
    let mut i: usize = 0;
    while i < n_req
        invariant
            i <= n_req,
            n_req == requests@.len(),
            g.wf(),
            g.rates_bounded(),
            cfg.wf(),
            volatility_ppm <= RATE_SCALE,
            forall|k: int|
                0 <= k < requests@.len() ==> (#[trigger] requests@[k]).max_hops < usize::MAX,
            out@.len() == i,
            forall|k: int|
                0 <= k < i ==> quote_outcome_ok(
                    *g,
                    #[trigger] requests@[k],
                    *cfg,
                    volatility_ppm,
                    out@[k],
                ),
        decreases n_req - i,
    {
        let r = calculate_quote_with_slippage(g, &requests[i], cfg, volatility_ppm);
        let ghost out0 = out@;
        out.push(r);
        proof {
            assert forall|k: int| 0 <= k < i + 1 implies quote_outcome_ok(
                *g,
                #[trigger] requests@[k],
                *cfg,
                volatility_ppm,
                out@[k],
            ) by {
                if k < i {
                    assert(out@[k] == out0[k]);
                }
            }
        }
        i = i + 1;
    }
    out
}

} // verus!
