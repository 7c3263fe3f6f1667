//! The data model: one observed market quote, and one detected triangular
//! arbitrage opportunity.
//!
//! Prices are exact fractions (`price_num / price_den`) and volumes are
//! fixed-point integers scaled by `numbers::VOL_SCALE`; percentages are
//! carried in hundredths of a percent, so `1964` reads as `19.64 %`.
use vstd::prelude::*;

verus! {

/// One observed market quote: `1 base = (price_num / price_den) quote`.
#[derive(Debug, Clone)]
pub struct PairPrice {
    /// Base currency code.
    pub base: String,
    /// Quote currency code.
    pub quote: String,
    /// Price numerator.
    pub price_num: u64,
    /// Price denominator, a power of ten.
    pub price_den: u64,
    /// Reported volume, fixed-point with scale `VOL_SCALE`; 0 means unknown
    /// liquidity.
    pub volume: u64,
    /// Whether the quote is for a spot market; non-spot entries never reach
    /// the graph.
    pub is_spot: bool,
}

impl PairPrice {
    /// A valid quote has a positive, representable price.
    pub open spec fn wf(self) -> bool {
        1 <= self.price_num && 1 <= self.price_den
    }
}

/// One detected triangular arbitrage opportunity, immutable once produced.
#[derive(Debug, Clone)]
pub struct TriangularResult {
    /// First node of the canonical cycle `a -> b -> c -> a`: the
    /// lexicographically smallest of the three rotations.
    pub triangle_a: String,
    /// Second node of the canonical cycle.
    pub triangle_b: String,
    /// Third node of the canonical cycle.
    pub triangle_c: String,
    /// The three legs, formatted `A/B`, `B/C`, `C/A`.
    pub pairs: Vec<String>,
    /// Gross profit before fees, in hundredths of a percent.
    pub profit_before_centi: i64,
    /// Total fee over the three legs, in hundredths of a percent.
    pub fees_centi: i64,
    /// Net profit after fees, in hundredths of a percent.
    pub profit_after_centi: i64,
    /// The bottleneck liquidity: the smallest of the three legs' volumes.
    pub score_liquidity: u64,
}

/// The mathematical content of a quote: codes, exact price fraction,
/// fixed-point volume, and the spot flag.
pub open spec fn pp_view(p: PairPrice) -> (Seq<char>, Seq<char>, u64, u64, u64, bool) {
    (p.base@, p.quote@, p.price_num, p.price_den, p.volume, p.is_spot)
}

/// The contents of a quote list, by value.
pub open spec fn views_of(s: Seq<PairPrice>) -> Seq<(Seq<char>, Seq<char>, u64, u64, u64, bool)> {
    s.map_values(|p: PairPrice| pp_view(p))
}

/// An explicit copy of a quote: same codes, price, volume and flag.
pub fn clone_pair(p: &PairPrice) -> (r: PairPrice)
    ensures
        pp_view(r) == pp_view(*p),
{
    PairPrice {
        base: p.base.clone(),
        quote: p.quote.clone(),
        price_num: p.price_num,
        price_den: p.price_den,
        volume: p.volume,
        is_spot: p.is_spot,
    }
}

pub proof fn lemma_views_concat(s1: Seq<PairPrice>, s2: Seq<PairPrice>)
    ensures
        views_of(s1 + s2) == views_of(s1) + views_of(s2),
{
    assert(views_of(s1 + s2) =~= views_of(s1) + views_of(s2));
}

pub proof fn lemma_views_push(s: Seq<PairPrice>, p: PairPrice)
    ensures
        views_of(s.push(p)) == views_of(s).push(pp_view(p)),
{
    assert forall|i: int| 0 <= i < s.len() + 1 implies views_of(s.push(p))[i] == views_of(s).push(
        pp_view(p),
    )[i] by {
        if i < s.len() {
            assert(s.push(p)[i] == s[i]);
        } else {
            assert(s.push(p)[i] == p);
        }
    }
    assert(views_of(s.push(p)) =~= views_of(s).push(pp_view(p)));
}

} // verus!
