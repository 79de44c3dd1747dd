use swap_router::arbitrage::{cycle_qualifies, scan};
use swap_router::graph::{RateEdge, from_rate_edges};

fn edge(from: usize, to: usize, rate_ppm: u64) -> RateEdge {
    RateEdge { from, to, rate_ppm, fee_ppm: 0, liquidity_ppm: 1_000_000, protocol: 1, pool: 0 }
}

// A three-edge cycle with rates 1.01, 1.02, 0.99: product about 1.0196.
fn cyclic_market() -> swap_router::graph::LiquidityGraph {
    let edges = vec![edge(0, 1, 1_010_000), edge(1, 2, 1_020_000), edge(2, 0, 990_000)];
    from_rate_edges(3, &edges)
}

#[test]
fn profitable_cycle_is_reported() {
    let g = cyclic_market();
    // Borrow 1 whole unit; gross profit is 198.98 bps, above the 100 bps bar.
    let cycles = scan(&g, 100, 10_000_000, 4, 0, 0);
    assert!(!cycles.is_empty());
    let c = &cycles[0];
    assert_eq!(c.assets.first(), c.assets.last());
    assert_eq!(c.hops.len(), 3);
    assert_eq!(c.borrow_amount, 10_000_000);
    assert_eq!(c.gross_output, 10_198_980);
    // Gross profit 198980, flash-loan fee 9 bps of the borrow = 9000.
    assert_eq!(c.net_profit, 189_980);
    assert_eq!(c.profit_bps, 198);
}

#[test]
fn cycle_below_threshold_is_filtered() {
    let g = cyclic_market();
    // The same cycle yields 198 bps, under a 300 bps bar.
    let cycles = scan(&g, 300, 10_000_000, 4, 0, 0);
    assert!(cycles.is_empty());
}

#[test]
fn thin_markets_are_ignored() {
    // The same profitable cycle, but one leg is below the liquidity floor.
    let mut thin = vec![edge(0, 1, 1_010_000), edge(1, 2, 1_020_000), edge(2, 0, 990_000)];
    thin[1].liquidity_ppm = 100_000;
    let g = from_rate_edges(3, &thin);
    let cycles = scan(&g, 100, 10_000_000, 4, 500_000, 0);
    assert!(cycles.is_empty());
}

#[test]
fn gas_cost_can_eat_the_profit() {
    let g = cyclic_market();
    // Net profit without gas is 189980; a larger gas cost kills the cycle.
    let cycles = scan(&g, 100, 10_000_000, 4, 0, 200_000);
    assert!(cycles.is_empty());
}

#[test]
fn no_cycle_in_a_fair_market() {
    // Product exactly 1.0 after rounding: nothing to report.
    let edges = vec![edge(0, 1, 1_000_000), edge(1, 2, 1_000_000), edge(2, 0, 1_000_000)];
    let g = from_rate_edges(3, &edges);
    let cycles = scan(&g, 0, 10_000_000, 4, 0, 0);
    assert!(cycles.is_empty());
}

#[test]
fn qualification_thresholds_are_exact() {
    // Gross 10198980 on a 10000000 borrow: 198 bps, net 189980.
    assert!(cycle_qualifies(10_198_980, 10_000_000, 0, 198));
    assert!(!cycle_qualifies(10_198_980, 10_000_000, 0, 199));
    // The flash-loan fee (9000) plus gas must be covered.
    assert!(cycle_qualifies(10_198_980, 10_000_000, 189_979, 0));
    assert!(!cycle_qualifies(10_198_980, 10_000_000, 189_980, 0));
    // No gross profit, no cycle.
    assert!(!cycle_qualifies(10_000_000, 10_000_000, 0, 0));
}
