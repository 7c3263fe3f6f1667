//! Shared pieces of the per-exchange decoders: what a decoded tick must
//! satisfy, and the tolerant extraction of prices and volumes from JSON
//! fields that may carry numbers as text or as numbers — each extraction an
//! exact function of the field's `JsonNode` contents.
use crate::json::{json_as_str, json_number_text, JsonNode};
use crate::models::PairPrice;
use crate::numbers::{dec_den, dec_num, dec_valid, parse_decimal, parse_volume_fp, vol_fp_spec};
use crate::text::str_chars;
use vstd::prelude::*;

pub mod binance;
pub mod bybit;
pub mod gateio;
pub mod kucoin;

verus! {

/// What every tick a decoder emits satisfies: a positive representable
/// price, non-empty currency codes, and the spot flag.
pub open spec fn tick_ok(p: PairPrice) -> bool {
    &&& p.wf()
    &&& p.is_spot
    &&& p.base@.len() > 0
    &&& p.quote@.len() > 0
}

pub open spec fn all_ticks_ok(s: Seq<PairPrice>) -> bool {
    forall|i: int| 0 <= i < s.len() ==> tick_ok(#[trigger] s[i])
}

/// The decimal text a field carries: a JSON string's characters or a JSON
/// number's rendering; nothing for any other kind of value.
pub open spec fn field_text(m: JsonNode) -> Option<Seq<char>> {
    match m {
        JsonNode::Text(s) => Some(s),
        JsonNode::NumberText(s) => Some(s),
        _ => None,
    }
}

/// The exact positive price a field denotes: its decimal text parsed as an
/// integer fraction, accepted only when positive.
pub open spec fn price_of(m: JsonNode) -> Option<(u64, u64)> {
    match field_text(m) {
        Some(s) => if dec_valid(s) && dec_num(s) >= 1 {
            Some((dec_num(s) as u64, dec_den(s) as u64))
        } else {
            None
        },
        None => None,
    }
}

/// The price an optional field denotes: nothing when the field is absent.
pub open spec fn opt_price(o: Option<JsonNode>) -> Option<(u64, u64)> {
    match o {
        Some(m) => price_of(m),
        None => None,
    }
}

/// The fixed-point volume a field denotes; anything unreadable counts as
/// unknown liquidity (0).
pub open spec fn vol_of(m: JsonNode) -> u64 {
    match field_text(m) {
        Some(s) => vol_fp_spec(s) as u64,
        None => 0,
    }
}

/// Extracts the price `price_of` denotes from a parsed JSON field.
pub fn price_from_value(v: &serde_json::Value) -> (r: Option<(u64, u64)>)
    ensures
        r == price_of(crate::json::value_model(*v)),
        r matches Some(p) ==> 1 <= p.0 && 1 <= p.1,
{
    let text: Option<String> = match json_as_str(v) {
        Some(s) => Some(s.to_owned()),
        None => json_number_text(v),
    };
    match text {
        Some(s) => {
            let cs = str_chars(s.as_str());
            match parse_decimal(&cs) {
                Some((n, d)) => {
                    if n >= 1 {
                        Some((n, d))
                    } else {
                        None
                    }
                },
                None => None,
            }
        },
        None => None,
    }
}

/// Extracts the volume `vol_of` denotes from a parsed JSON field.
pub fn vol_from_value(v: &serde_json::Value) -> (r: u64)
    ensures
        r == vol_of(crate::json::value_model(*v)),
{
    let text: Option<String> = match json_as_str(v) {
        Some(s) => Some(s.to_owned()),
        None => json_number_text(v),
    };
    match text {
        Some(s) => {
            let cs = str_chars(s.as_str());
            parse_volume_fp(&cs)
        },
        None => 0,
    }
}

} // verus!
