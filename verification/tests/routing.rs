use swap_router::graph::{PoolEdge, build_graph};
use swap_router::path::find_route;
use swap_router::quote::{
    QuoteRequest, SlippageConfig, batch_calculate_quotes, calculate_quote_with_slippage, quote,
    resolve_slippage,
};

fn pool(a: usize, b: usize, liquidity_ppm: u64, fee_ppm: u64, protocol: u32) -> PoolEdge {
    PoolEdge { asset_a: a, asset_b: b, liquidity_ppm, fee_ppm, protocol }
}

// Assets: 0 = XLM, 1 = USDC, 2 = yXLM.
fn two_hop_market() -> (swap_router::graph::LiquidityGraph, Vec<usize>) {
    let pools = vec![pool(0, 1, 980_000, 3_000, 1), pool(1, 2, 950_000, 2_000, 2)];
    build_graph(3, &pools)
}

#[test]
fn route_two_hops_compounds_per_hop() {
    let (g, warnings) = two_hop_market();
    assert!(warnings.is_empty());
    // 1000 whole units in, through (1 - 0.003) * 0.98 and (1 - 0.002) * 0.95.
    let route = find_route(&g, 0, 2, 10_000_000_000, 4).expect("route must exist");
    assert_eq!(route.assets, vec![0, 1, 2]);
    assert_eq!(route.hops.len(), 2);
    assert_eq!(route.hops[0].edge.rate_ppm, 977_060);
    assert_eq!(route.hops[1].edge.rate_ppm, 948_100);
    assert_eq!(route.output_amount, 9_263_505_860);
    assert_eq!(route.input_amount, 10_000_000_000);
    assert_eq!(route.price_impact_ppm, 69_000);
}

#[test]
fn route_prefers_better_rate() {
    // Two pools between the same pair: the cheaper one must be chosen.
    let pools = vec![pool(0, 1, 980_000, 50_000, 1), pool(0, 1, 990_000, 1_000, 2)];
    let (g, _) = build_graph(2, &pools);
    let route = find_route(&g, 0, 1, 1_000_000, 3).expect("route must exist");
    assert_eq!(route.hops.len(), 1);
    assert_eq!(route.hops[0].edge.protocol, 2);
}

#[test]
fn unreachable_destination_is_unavailable() {
    let pools = vec![pool(0, 1, 900_000, 1_000, 1)];
    let (g, _) = build_graph(3, &pools);
    assert!(find_route(&g, 0, 2, 1_000_000, 5).is_none());
}

#[test]
fn max_hops_bounds_the_search() {
    let (g, _) = two_hop_market();
    assert!(find_route(&g, 0, 2, 1_000_000, 1).is_none());
    assert!(find_route(&g, 0, 2, 1_000_000, 2).is_some());
}

#[test]
fn rejected_pools_are_warned_not_fatal() {
    let pools = vec![
        pool(0, 1, 0, 1_000, 1),          // zero liquidity: rejected
        pool(0, 1, 980_000, 3_000, 1),    // fine
        pool(1, 2, 900_000, 1_000_000, 2), // fee of one whole: rejected
        pool(0, 9, 900_000, 1_000, 2),    // unknown asset: rejected
    ];
    let (g, warnings) = build_graph(3, &pools);
    assert_eq!(warnings, vec![0, 2, 3]);
    assert!(find_route(&g, 0, 1, 1_000_000, 2).is_some());
    assert!(find_route(&g, 0, 2, 1_000_000, 4).is_none());
}

#[test]
fn slippage_scales_with_volatility_and_clamps() {
    let cfg = SlippageConfig::default();
    // base 50 bps, multiplier 2: at volatility 0 the base stands.
    assert_eq!(resolve_slippage(&cfg, 0), 50);
    // at volatility 0.5 the base is doubled.
    assert_eq!(resolve_slippage(&cfg, 500_000), 100);
    // at volatility 1.0 the base is tripled.
    assert_eq!(resolve_slippage(&cfg, 1_000_000), 150);
    let hot = SlippageConfig {
        base_bps: 300,
        volatility_multiplier_ppm: 2_000_000,
        max_bps: 500,
        min_bps: 10,
        dynamic_adjustment: true,
    };
    // 300 * 3 = 900 clamps to the 500 bps ceiling.
    assert_eq!(resolve_slippage(&hot, 1_000_000), 500);
    let fixed = SlippageConfig { dynamic_adjustment: false, ..hot };
    assert_eq!(resolve_slippage(&fixed, 1_000_000), 300);
}

#[test]
fn quote_inverts_the_route_and_adds_the_buffer() {
    let (g, _) = two_hop_market();
    let route = find_route(&g, 0, 2, 1_000_000_000, 4).expect("route must exist");
    let cfg = SlippageConfig::default();
    let q = quote(&route, 1_000_000_000, &cfg, 0).expect("quote must succeed");
    // Inverting 100 whole units through both hops with ceiling divisions,
    // then one 50 bps buffer on top.
    assert_eq!(q.source_amount, 1_084_902_430);
    assert_eq!(q.destination_amount, 1_000_000_000);
    assert_eq!(q.slippage_bps, 50);
}

#[test]
fn quote_rejects_zero_amount_and_empty_route() {
    let (g, _) = two_hop_market();
    let route = find_route(&g, 0, 2, 1_000_000_000, 4).expect("route must exist");
    let cfg = SlippageConfig::default();
    assert!(quote(&route, 0, &cfg, 0).is_err());
}

#[test]
fn quote_request_end_to_end() {
    let (g, _) = two_hop_market();
    let cfg = SlippageConfig::default();
    let req = QuoteRequest {
        source_asset: 0,
        destination_asset: 2,
        destination_amount: 1_000_000_000,
        max_hops: 4,
    };
    let res = calculate_quote_with_slippage(&g, &req, &cfg, 0);
    assert!(res.available);
    assert_eq!(res.source_amount, 1_084_902_430);
    assert_eq!(res.path, vec![0, 1, 2]);
    assert_eq!(res.slippage_bps, 50);
}

#[test]
fn quote_request_unavailable_cases() {
    let (g, _) = two_hop_market();
    let cfg = SlippageConfig::default();
    let no_amount = QuoteRequest {
        source_asset: 0,
        destination_asset: 2,
        destination_amount: 0,
        max_hops: 4,
    };
    assert!(!calculate_quote_with_slippage(&g, &no_amount, &cfg, 0).available);
    let no_asset = QuoteRequest {
        source_asset: 0,
        destination_asset: 7,
        destination_amount: 1,
        max_hops: 4,
    };
    assert!(!calculate_quote_with_slippage(&g, &no_asset, &cfg, 0).available);
}

#[test]
fn batch_quotes_answer_each_request() {
    let (g, _) = two_hop_market();
    let cfg = SlippageConfig::default();
    let reqs = vec![
        QuoteRequest { source_asset: 0, destination_asset: 2, destination_amount: 1_000_000_000, max_hops: 4 },
        QuoteRequest { source_asset: 2, destination_asset: 0, destination_amount: 1_000_000, max_hops: 4 },
        QuoteRequest { source_asset: 0, destination_asset: 2, destination_amount: 0, max_hops: 4 },
    ];
    let out = batch_calculate_quotes(&g, &reqs, &cfg, 0);
    assert_eq!(out.len(), 3);
    assert!(out[0].available);
    assert_eq!(out[0].source_amount, 1_084_902_430);
    assert!(out[1].available);
    assert!(!out[2].available);
}

#[test]
fn apply_rate_is_exact() {
    assert_eq!(swap_router::apply_rate(1_000, 500_000), Some(500));
    assert_eq!(swap_router::apply_rate(0, 999_999), Some(0));
    // A gigantic rate on a gigantic amount cannot be represented.
    assert_eq!(swap_router::apply_rate(u64::MAX, u64::MAX), None);
}

#[test]
fn same_asset_route_is_trivial() {
    let (g, _) = two_hop_market();
    let route = find_route(&g, 1, 1, 5_000_000, 3).expect("staying put is a route");
    assert_eq!(route.assets, vec![1]);
    assert!(route.hops.is_empty());
    assert_eq!(route.output_amount, 5_000_000);
    assert_eq!(route.price_impact_ppm, 0);
}

#[test]
fn tie_on_output_prefers_higher_liquidity() {
    // Two pools with the same effective rate of one half: one from deep
    // liquidity and a steep fee, one from thin liquidity and no fee.
    let pools = vec![pool(0, 1, 500_000, 0, 1), pool(0, 1, 1_000_000, 500_000, 2)];
    let (g, _) = build_graph(2, &pools);
    let route = find_route(&g, 0, 1, 1_000_000, 3).expect("route must exist");
    assert_eq!(route.output_amount, 500_000);
    assert_eq!(route.hops.len(), 1);
    assert_eq!(route.hops[0].edge.protocol, 2);
    assert_eq!(route.hops[0].edge.liquidity_ppm, 1_000_000);
}

#[test]
fn tie_on_output_trades_hops_for_liquidity() {
    // A thin direct pool and a deep two-hop detour both convert at exactly
    // one quarter; the detour carries more aggregate liquidity and wins.
    let pools = vec![
        pool(0, 2, 250_000, 0, 1),
        pool(0, 1, 500_000, 0, 2),
        pool(1, 2, 500_000, 0, 3),
    ];
    let (g, _) = build_graph(3, &pools);
    let route = find_route(&g, 0, 2, 1_000_000, 3).expect("route must exist");
    assert_eq!(route.output_amount, 250_000);
    assert_eq!(route.hops.len(), 2);
    assert_eq!(route.assets, vec![0, 1, 2]);
}
