//! The gateio decoder: tickers arrive under `channel: "spot.tickers"` with
//! a `result` array of objects (`currency_pair` like `BTC_USDT`, `last`,
//! `base_volume`). `decode_spec` states, over the message's JSON document,
//! exactly which ticks come out.
use crate::exchanges::{all_ticks_ok, opt_price, price_from_value, tick_ok, vol_of, vol_from_value};
use crate::json::{
    json_as_array, json_as_str, json_get, models_of, obj_get, parse_json, value_model, JsonNode,
};
use crate::models::{lemma_views_push, pp_view, views_of, PairPrice};
use crate::symbols::{split_once, split_once_spec};
use crate::text::{chars_eq, str_chars};
use vstd::prelude::*;

verus! {

/// The volume of a ticker object: its `base_volume` field, else unknown
/// (0).
pub open spec fn vol_of_item(m: JsonNode) -> u64 {
    match obj_get(m, "base_volume"@) {
        Some(x) => vol_of(x),
        None => 0,
    }
}

/// The tick one ticker object yields: the `currency_pair` split at its
/// underscore, the price from `last`, the volume from `base_volume` — or
/// nothing when any part is missing, malformed, non-positive, or leaves an
/// empty code.
pub open spec fn tick_of_item(m: JsonNode) -> Option<
    (Seq<char>, Seq<char>, u64, u64, u64, bool),
> {
    match obj_get(m, "currency_pair"@) {
        Some(sv) => match sv {
            JsonNode::Text(sym) => match opt_price(obj_get(m, "last"@)) {
                Some(p) => match split_once_spec(sym, '_') {
                    Some(bq) => if bq.0.len() > 0 && bq.1.len() > 0 {
                        Some((bq.0, bq.1, p.0, p.1, vol_of_item(m), true))
                    } else {
                        None
                    },
                    None => None,
                },
                None => None,
            },
            _ => None,
        },
        None => None,
    }
}

pub open spec fn opt_tick_seq(o: Option<(Seq<char>, Seq<char>, u64, u64, u64, bool)>) -> Seq<
    (Seq<char>, Seq<char>, u64, u64, u64, bool),
> {
    match o {
        Some(t) => seq![t],
        None => Seq::empty(),
    }
}

/// The ticks of a list of ticker objects, in order.
pub open spec fn ticks_of_items(ms: Seq<JsonNode>) -> Seq<
    (Seq<char>, Seq<char>, u64, u64, u64, bool),
>
    decreases ms.len(),
{
    if ms.len() == 0 {
        Seq::empty()
    } else {
        ticks_of_items(ms.drop_last()) + opt_tick_seq(tick_of_item(ms.last()))
    }
}

/// The ticks one whole message yields: the elements of the `result` array
/// of a `channel: "spot.tickers"` message; nothing for anything else.
pub open spec fn decode_spec(doc: Option<JsonNode>) -> Seq<
    (Seq<char>, Seq<char>, u64, u64, u64, bool),
> {
    match doc {
        Some(m) => if obj_get(m, "channel"@) == Some(JsonNode::Text("spot.tickers"@)) {
            match obj_get(m, "result"@) {
                Some(d) => match d {
                    JsonNode::Array(ms) => ticks_of_items(ms),
                    _ => Seq::empty(),
                },
                None => Seq::empty(),
            }
        } else {
            Seq::empty()
        },
        None => Seq::empty(),
    }
}

/// The subscription request for the spot ticker channel; the caller
/// supplies the millisecond timestamp already rendered as decimal text.
pub fn subscribe_payload(time_ms_text: &str) -> (r: String)
    ensures
        r@ == "{\"time\":"@ + time_ms_text@
            + ",\"channel\":\"spot.tickers\",\"event\":\"subscribe\",\"payload\":[]}"@,
{
    let head = "{\"time\":".to_owned();
    head.concat(time_ms_text).concat(
        ",\"channel\":\"spot.tickers\",\"event\":\"subscribe\",\"payload\":[]}",
    )
}

/// Decodes one ticker object and appends exactly the tick `tick_of_item`
/// names for it, if any.
fn push_tick(out: &mut Vec<PairPrice>, item: &serde_json::Value)
    requires
        all_ticks_ok(old(out)@),
    ensures
        all_ticks_ok(final(out)@),
        views_of(final(out)@) == views_of(old(out)@) + opt_tick_seq(
            tick_of_item(value_model(*item)),
        ),
{
    let ghost m = value_model(*item);
    let sym = match json_get(item, "currency_pair") {
        Some(v) => match json_as_str(v) {
            Some(s) => s.to_owned(),
            None => {
                proof {
                    assert(views_of(out@) =~= views_of(old(out)@) + opt_tick_seq(
                        tick_of_item(m),
                    ));
                }
                return ;
            },
        },
        None => {
            proof {
                assert(views_of(out@) =~= views_of(old(out)@) + opt_tick_seq(tick_of_item(m)));
            }
            return ;
        },
    };
    let price = match json_get(item, "last") {
        Some(v) => match price_from_value(v) {
            Some(p) => p,
            None => {
                proof {
                    assert(views_of(out@) =~= views_of(old(out)@) + opt_tick_seq(
                        tick_of_item(m),
                    ));
                }
                return ;
            },
        },
        None => {
            proof {
                assert(views_of(out@) =~= views_of(old(out)@) + opt_tick_seq(tick_of_item(m)));
            }
            return ;
        },
    };
    let vol: u64 = match json_get(item, "base_volume") {
        Some(v) => vol_from_value(v),
        None => 0,
    };
    proof {
        assert(vol == vol_of_item(m));
    }
    match split_once(sym.as_str(), '_') {
        Some((base, quote)) => {
            if !base.as_str().is_empty() && !quote.as_str().is_empty() {
                let p = PairPrice {
                    base,
                    quote,
                    price_num: price.0,
                    price_den: price.1,
                    volume: vol,
                    is_spot: true,
                };
                proof {
                    assert(tick_ok(p));
                    assert(tick_of_item(m) == Some(pp_view(p)));
                    lemma_views_push(old(out)@, p);
                    assert(views_of(old(out)@).push(pp_view(p)) =~= views_of(old(out)@)
                        + opt_tick_seq(tick_of_item(m)));
                }
                out.push(p);
            } else {
                proof {
                    assert(views_of(out@) =~= views_of(old(out)@) + opt_tick_seq(
                        tick_of_item(m),
                    ));
                }
            }
        },
        None => {
            proof {
                assert(views_of(out@) =~= views_of(old(out)@) + opt_tick_seq(tick_of_item(m)));
            }
        },
    }
}

/// Decodes one streaming message into exactly the ticks `decode_spec` names
/// for its document; anything malformed yields fewer or zero ticks, never
/// an error.
pub fn decode_message(txt: &str) -> (r: Vec<PairPrice>)
    ensures
        all_ticks_ok(r@),
        views_of(r@) == decode_spec(crate::json::json_doc(txt@)),
{
    let mut out: Vec<PairPrice> = Vec::new();
    proof {
        assert(views_of(out@) =~= Seq::<(Seq<char>, Seq<char>, u64, u64, u64, bool)>::empty());
    }
    match parse_json(txt) {
        Some(v) => {
            let ghost m = value_model(v);
            let is_tickers: bool;
            match json_get(&v, "channel") {
                Some(cv) => {
                    match json_as_str(cv) {
                        Some(channel) => {
                            let cc = str_chars(channel);
                            let want = str_chars("spot.tickers");
                            is_tickers = chars_eq(&cc, &want);
                            proof {
                                assert(is_tickers == (obj_get(m, "channel"@) == Some(
                                    JsonNode::Text("spot.tickers"@),
                                )));
                            }
                        },
                        None => {
                            is_tickers = false;
                            proof {
                                assert(obj_get(m, "channel"@) != Some(
                                    JsonNode::Text("spot.tickers"@),
                                ));
                            }
                        },
                    }
                },
                None => {
                    is_tickers = false;
                    proof {
                        assert(obj_get(m, "channel"@) != Some(JsonNode::Text("spot.tickers"@)));
                    }
                },
            }
            if is_tickers {
                match json_get(&v, "result") {
                    Some(rv) => {
                        match json_as_array(rv) {
                            Some(arr) => {
                                let ghost ms = models_of(arr@);
                                let mut i: usize = 0;
                                proof {
                                    assert(ms.take(0) =~= Seq::<JsonNode>::empty());
                                    assert(views_of(out@) =~= ticks_of_items(ms.take(0)));
                                }
                                while i < arr.len()
                                    invariant
                                        i <= arr@.len(),
                                        ms == models_of(arr@),
                                        all_ticks_ok(out@),
                                        views_of(out@) == ticks_of_items(ms.take(i as int)),
                                    decreases arr@.len() - i,
                                {
                                    push_tick(&mut out, &arr[i]);
                                    proof {
                                        assert(ms[i as int] == value_model(arr@[i as int]));
                                        assert(ms.take(i + 1).drop_last() =~= ms.take(i as int));
                                        assert(ms.take(i + 1).last() == ms[i as int]);
                                    }
                                    i += 1;
                                }
                                proof {
                                    assert(ms.take(ms.len() as int) =~= ms);
                                }
                            },
                            None => {
                            },
                        }
                    },
                    None => {
                    },
                }
            }
        },
        None => {
        },
    }
    out
}

} // verus!
