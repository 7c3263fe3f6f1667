//! The scan orchestrator: merges the requested exchanges' snapshots, builds
//! the graph, runs the cycle scanner and returns the ranked opportunities.
use crate::graph::{build, build_post, CurrencyGraph};
use crate::models::{views_of, PairPrice, TriangularResult};
use crate::scanner::{scan, scan_post, FEE_UNIT};
use crate::store::SnapshotStore;
use vstd::prelude::*;

verus! {

/// Finds the triangular arbitrage opportunities in a merged price list.
///
/// Builds the liquidity-ranked rate graph from `pairs` and scans it: the
/// result lists every profitable cycle exactly once, canonically rotated,
/// exactly priced, ranked by net profit and then by liquidity.
pub fn find_triangular_opportunities(
    pairs: Vec<PairPrice>,
    min_profit_centi: i64,
    fee_per_leg_centi: u32,
    neighbor_limit: usize,
) -> (r: Vec<TriangularResult>)
    requires
        fee_per_leg_centi <= FEE_UNIT,
    ensures
        exists|g: CurrencyGraph|
            #[trigger] build_post(g, pairs@, neighbor_limit as int) && scan_post(
                g,
                fee_per_leg_centi as int,
                min_profit_centi as int,
                r@,
            ),
{
    let g = build(&pairs, neighbor_limit);
    let r = scan(&g, min_profit_centi, fee_per_leg_centi);
    proof {
        assert(build_post(g, pairs@, neighbor_limit as int) && scan_post(
            g,
            fee_per_leg_centi as int,
            min_profit_centi as int,
            r@,
        ));
    }
    r
}

/// Serves one scan request: reads the snapshot store for the requested
/// exchanges, builds the graph and returns the ranked opportunities.
///
/// An exchange with no data yet contributes nothing; a scan over absent
/// data returns an empty list, never an error.
pub fn run_scan(
    store: &SnapshotStore,
    exchanges: &Vec<String>,
    min_profit_centi: i64,
    fee_per_leg_centi: u32,
    neighbor_limit: usize,
) -> (r: Vec<TriangularResult>)
    requires
        store.wf(),
        fee_per_leg_centi <= FEE_UNIT,
    ensures
        exists|pairs: Seq<PairPrice>, g: CurrencyGraph|
            views_of(pairs) == views_of(store.read_spec(exchanges@)) && #[trigger] build_post(
                g,
                pairs,
                neighbor_limit as int,
            ) && scan_post(g, fee_per_leg_centi as int, min_profit_centi as int, r@),
{
    let pairs = store.read(exchanges);
    let g = build(&pairs, neighbor_limit);
    let r = scan(&g, min_profit_centi, fee_per_leg_centi);
    proof {
        assert(views_of(pairs@) == views_of(store.read_spec(exchanges@)) && build_post(
            g,
            pairs@,
            neighbor_limit as int,
        ) && scan_post(g, fee_per_leg_centi as int, min_profit_centi as int, r@));
    }
    r
}

} // verus!
