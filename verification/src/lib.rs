//! A verified triangular-arbitrage scanner.
//!
//! Ticker streams from several exchanges are decoded into exact-fraction
//! quotes, collected in a snapshot store, turned into a liquidity-ranked
//! conversion graph, and searched for three-hop cycles whose multiplicative
//! return beats a configurable threshold after per-leg fees. Prices are
//! integer fractions and percentages are hundredths of a percent, so every
//! profit figure in a result is exact.
//!
//! The network loops live outside this crate; everything here — symbol
//! normalization, decimal parsing, message decoding, graph construction,
//! cycle search, deduplication and ranking — is specified and verified.
pub mod connector;
pub mod exchanges;
pub mod graph;
pub mod json;
pub mod logic;
pub mod models;
pub mod numbers;
pub mod scanner;
pub mod store;
pub mod symbols;
pub mod text;

use vstd::prelude::*;

verus! {

/// Default cap on the number of liquidity-ranked neighbours kept per currency
/// node when a scan request does not choose one.
pub fn default_neighbor_limit() -> (r: usize)
    ensures
        r == 100,
{
    100
}

/// Default per-leg taker fee when a scan request does not choose one, in
/// hundredths of a percent: 0.10 %.
pub fn default_fee_centi() -> (r: u32)
    ensures
        r == 10,
{
    10
}

} // verus!
