//! Yield scanning: filtering pool opportunities by a minimum APY.

use vstd::prelude::*;

verus! {

/// One yield opportunity, with its APY in basis points.
pub struct YieldOpportunity {
    pub protocol: String,
    pub pool: String,
    pub apy_bps: u64,
    pub tvl: u64,
    pub risk: String,
}

/// The opportunities among the first `k` whose APY reaches the threshold,
/// in input order.
pub open spec fn yields_kept(opps: Seq<YieldOpportunity>, min_apy_bps: u64, k: int) -> Seq<
    YieldOpportunity,
>
    decreases k,
{
    if k <= 0 {
        Seq::empty()
    } else if opps[k - 1].apy_bps >= min_apy_bps {
        yields_kept(opps, min_apy_bps, k - 1).push(opps[k - 1])
    } else {
        yields_kept(opps, min_apy_bps, k - 1)
    }
}

/// Keeps exactly the opportunities whose APY is at least `min_apy_bps`,
/// in order.
pub fn scan_yields(opportunities: Vec<YieldOpportunity>, min_apy_bps: u64) -> (r: Vec<
    YieldOpportunity,
>)
    ensures
        r@ == yields_kept(opportunities@, min_apy_bps, opportunities@.len() as int),
{
    let ghost orig = opportunities@;
    let n = opportunities.len();
    let mut rest = opportunities;
    let mut kept: Vec<YieldOpportunity> = Vec::new();
    let mut i: usize = 0;
    while i < n
        invariant
            i <= n,
            n == orig.len(),
            rest@ == orig.skip(i as int),
            kept@ == yields_kept(orig, min_apy_bps, i as int),
        decreases n - i,
    {
        let o = rest.remove(0);
        proof {
            assert(orig.skip(i as int)[0] == orig[i as int]);
            assert(orig.skip(i as int).remove(0) =~= orig.skip(i as int + 1));
        }
        if o.apy_bps >= min_apy_bps {
            kept.push(o);
        }
        i = i + 1;
    }
    kept
}

} // verus!
