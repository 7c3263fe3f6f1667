//! The KuCoin decoder: each push message wraps one ticker under `data`
//! (`symbol` like `BTC-USDT`, `price`). `decode_spec` states, over the
//! message's JSON document, exactly which tick comes out.
use crate::exchanges::{all_ticks_ok, opt_price, price_from_value, tick_ok};
use crate::json::{json_as_str, json_get, obj_get, parse_json, value_model, JsonNode};
use crate::models::{lemma_views_push, pp_view, views_of, PairPrice};
use crate::symbols::{split_once, split_once_spec};
use vstd::prelude::*;

verus! {

/// The tick the `data` object yields: the dash-split `symbol` and the
/// price from `price` — or nothing when any part is missing, malformed,
/// non-positive, or leaves an empty code.
pub open spec fn tick_of_data(d: JsonNode) -> Option<
    (Seq<char>, Seq<char>, u64, u64, u64, bool),
> {
    match obj_get(d, "symbol"@) {
        Some(sv) => match sv {
            JsonNode::Text(sym) => match opt_price(obj_get(d, "price"@)) {
                Some(p) => match split_once_spec(sym, '-') {
                    Some(bq) => if bq.0.len() > 0 && bq.1.len() > 0 {
                        Some((bq.0, bq.1, p.0, p.1, 0, true))
                    } else {
                        None
                    },
                    None => None,
                },
                None => None,
            },
            _ => None,
        },
        None => None,
    }
}

pub open spec fn opt_tick_seq(o: Option<(Seq<char>, Seq<char>, u64, u64, u64, bool)>) -> Seq<
    (Seq<char>, Seq<char>, u64, u64, u64, bool),
> {
    match o {
        Some(t) => seq![t],
        None => Seq::empty(),
    }
}

/// The ticks one whole message yields: the one tick of its `data` member;
/// nothing for anything else.
pub open spec fn decode_spec(doc: Option<JsonNode>) -> Seq<
    (Seq<char>, Seq<char>, u64, u64, u64, bool),
> {
    match doc {
        Some(m) => match obj_get(m, "data"@) {
            Some(d) => opt_tick_seq(tick_of_data(d)),
            None => Seq::empty(),
        },
        None => Seq::empty(),
    }
}

/// Splits a KuCoin symbol at its dash into base and quote.
pub fn parse_symbol(sym: &str) -> (r: Option<(String, String)>)
    ensures
        match r {
            Some(p) => split_once_spec(sym@, '-') == Some((p.0@, p.1@)),
            None => split_once_spec(sym@, '-') is None,
        },
{
    split_once(sym, '-')
}

/// The subscription request for the all-ticker topic.
pub fn subscribe_payload() -> (r: String)
    ensures
        r@
            == "{\"id\":\"scanner\",\"type\":\"subscribe\",\"topic\":\"/market/ticker:all\",\"response\":true}"@,
{
    "{\"id\":\"scanner\",\"type\":\"subscribe\",\"topic\":\"/market/ticker:all\",\"response\":true}".to_owned()
}

/// Decodes the `data` object and appends exactly the tick `tick_of_data`
/// names for it, if any.
fn push_tick(out: &mut Vec<PairPrice>, data: &serde_json::Value)
    requires
        all_ticks_ok(old(out)@),
    ensures
        all_ticks_ok(final(out)@),
        views_of(final(out)@) == views_of(old(out)@) + opt_tick_seq(
            tick_of_data(value_model(*data)),
        ),
{
    let ghost d = value_model(*data);
    let sym = match json_get(data, "symbol") {
        Some(v) => match json_as_str(v) {
            Some(s) => s.to_owned(),
            None => {
                proof {
                    assert(views_of(out@) =~= views_of(old(out)@) + opt_tick_seq(
                        tick_of_data(d),
                    ));
                }
                return ;
            },
        },
        None => {
            proof {
                assert(views_of(out@) =~= views_of(old(out)@) + opt_tick_seq(tick_of_data(d)));
            }
            return ;
        },
    };
    let price = match json_get(data, "price") {
        Some(v) => match price_from_value(v) {
            Some(p) => p,
            None => {
                proof {
                    assert(views_of(out@) =~= views_of(old(out)@) + opt_tick_seq(
                        tick_of_data(d),
                    ));
                }
                return ;
            },
        },
        None => {
            proof {
                assert(views_of(out@) =~= views_of(old(out)@) + opt_tick_seq(tick_of_data(d)));
            }
            return ;
        },
    };
    match parse_symbol(sym.as_str()) {
        Some((base, quote)) => {
            if !base.as_str().is_empty() && !quote.as_str().is_empty() {
                let p = PairPrice {
                    base,
                    quote,
                    price_num: price.0,
                    price_den: price.1,
                    volume: 0,
                    is_spot: true,
                };
                proof {
                    assert(tick_ok(p));
                    assert(tick_of_data(d) == Some(pp_view(p)));
                    lemma_views_push(old(out)@, p);
                    assert(views_of(old(out)@).push(pp_view(p)) =~= views_of(old(out)@)
                        + opt_tick_seq(tick_of_data(d)));
                }
                out.push(p);
            } else {
                proof {
                    assert(views_of(out@) =~= views_of(old(out)@) + opt_tick_seq(
                        tick_of_data(d),
                    ));
                }
            }
        },
        None => {
            proof {
                assert(views_of(out@) =~= views_of(old(out)@) + opt_tick_seq(tick_of_data(d)));
            }
        },
    }
}

/// Decodes one streaming message into exactly the ticks `decode_spec` names
/// for its document; anything malformed yields no tick, never an error.
pub fn decode_message(txt: &str) -> (r: Vec<PairPrice>)
    ensures
        all_ticks_ok(r@),
        views_of(r@) == decode_spec(crate::json::json_doc(txt@)),
{
    let mut out: Vec<PairPrice> = Vec::new();
    proof {
        assert(views_of(out@) =~= Seq::<(Seq<char>, Seq<char>, u64, u64, u64, bool)>::empty());
    }
    match parse_json(txt) {
        Some(v) => {
            match json_get(&v, "data") {
                Some(data) => {
                    push_tick(&mut out, data);
                },
                None => {
                },
            }
        },
        None => {
        },
    }
    out
}

} // verus!
