//! The Bybit decoder: tickers arrive under `topic: "tickers"` with a `data`
//! array of objects (`symbol`, `lastPrice`); the exchange also sends an
//! application-level `{"op":"ping"}` that wants a matching pong.
//! `decode_spec` states, over the message's JSON document, exactly which
//! ticks come out, and `is_ping` exactly when a pong is owed.
use crate::exchanges::{all_ticks_ok, opt_price, price_from_value, tick_ok};
use crate::json::{
    json_as_array, json_as_str, json_get, models_of, obj_get, parse_json, value_model, JsonNode,
};
use crate::models::{lemma_views_push, pp_view, views_of, PairPrice};
use crate::symbols::{first_suffix, suffix_scan, views};
use crate::text::{chars_eq, chars_to_string, str_chars, upper_seq, upper_vec, vec_range};
use vstd::prelude::*;

verus! {

/// The quote suffixes of Bybit spot symbols, in rank order.
pub open spec fn bquotes() -> Seq<Seq<char>> {
    seq!["USDT"@, "USDC"@, "BTC"@, "ETH"@]
}

/// The Bybit split: the first listed quote suffix, else two empty strings.
pub open spec fn split_spec(u: Seq<char>) -> (Seq<char>, Seq<char>) {
    let j = first_suffix(bquotes(), u, 0);
    if j >= 0 {
        (u.take(u.len() - bquotes()[j].len()), bquotes()[j])
    } else {
        (Seq::empty(), Seq::empty())
    }
}

/// The tick one ticker object yields: symbol from `symbol`, price from
/// `lastPrice`, codes from the suffix split — or nothing when any part is
/// missing, malformed, non-positive, or leaves an empty code.
pub open spec fn tick_of_item(m: JsonNode) -> Option<
    (Seq<char>, Seq<char>, u64, u64, u64, bool),
> {
    match obj_get(m, "symbol"@) {
        Some(sv) => match sv {
            JsonNode::Text(sym) => match opt_price(obj_get(m, "lastPrice"@)) {
                Some(p) => {
                    let bq = split_spec(upper_seq(sym));
                    if bq.0.len() > 0 && bq.1.len() > 0 {
                        Some((bq.0, bq.1, p.0, p.1, 0, true))
                    } else {
                        None
                    }
                },
                None => None,
            },
            _ => None,
        },
        None => None,
    }
}

pub open spec fn opt_tick_seq(o: Option<(Seq<char>, Seq<char>, u64, u64, u64, bool)>) -> Seq<
    (Seq<char>, Seq<char>, u64, u64, u64, bool),
> {
    match o {
        Some(t) => seq![t],
        None => Seq::empty(),
    }
}

/// The ticks of a list of ticker objects, in order.
pub open spec fn ticks_of_items(ms: Seq<JsonNode>) -> Seq<
    (Seq<char>, Seq<char>, u64, u64, u64, bool),
>
    decreases ms.len(),
{
    if ms.len() == 0 {
        Seq::empty()
    } else {
        ticks_of_items(ms.drop_last()) + opt_tick_seq(tick_of_item(ms.last()))
    }
}

/// The ticks one whole message yields: the elements of the `data` array of
/// a `topic: "tickers"` message; nothing for anything else.
pub open spec fn decode_spec(doc: Option<JsonNode>) -> Seq<
    (Seq<char>, Seq<char>, u64, u64, u64, bool),
> {
    match doc {
        Some(m) => if obj_get(m, "topic"@) == Some(JsonNode::Text("tickers"@)) {
            match obj_get(m, "data"@) {
                Some(d) => match d {
                    JsonNode::Array(ms) => ticks_of_items(ms),
                    _ => Seq::empty(),
                },
                None => Seq::empty(),
            }
        } else {
            Seq::empty()
        },
        None => Seq::empty(),
    }
}

/// Whether a message is Bybit's application-level keepalive: an object
/// whose `op` member is the text `ping`.
pub open spec fn is_ping(doc: Option<JsonNode>) -> bool {
    match doc {
        Some(m) => obj_get(m, "op"@) == Some(JsonNode::Text("ping"@)),
        None => false,
    }
}

fn bquotes_exec() -> (r: Vec<Vec<char>>)
    ensures
        views(r@) == bquotes(),
{
    let mut r: Vec<Vec<char>> = Vec::new();
    r.push(str_chars("USDT"));
    r.push(str_chars("USDC"));
    r.push(str_chars("BTC"));
    r.push(str_chars("ETH"));
    proof {
        assert(views(r@) =~= bquotes());
    }
    r
}

/// Splits an uppercased Bybit symbol into base and quote; both parts come
/// back empty when no listed suffix matches.
pub fn split_symbol(symbol: &str) -> (r: (String, String))
    ensures
        (r.0@, r.1@) == split_spec(upper_seq(symbol@)),
{
    let u = upper_vec(&str_chars(symbol));
    let qs = bquotes_exec();
    match suffix_scan(&qs, &u) {
        Some(j) => {
            let q: &Vec<char> = &qs[j];
            proof {
                assert(views(qs@)[j as int] == q@);
            }
            let base = vec_range(&u, 0, u.len() - q.len());
            let quote = vec_range(&u, u.len() - q.len(), u.len());
            proof {
                assert(u@.take(u@.len() - q@.len()) =~= u@.subrange(0, u@.len() - q@.len()));
                assert(q@ =~= u@.subrange(u@.len() - q@.len(), u@.len() as int));
            }
            (chars_to_string(&base), chars_to_string(&quote))
        },
        None => {
            let e1: Vec<char> = Vec::new();
            let e2: Vec<char> = Vec::new();
            (chars_to_string(&e1), chars_to_string(&e2))
        },
    }
}

/// The subscription request for the all-ticker channel.
pub fn subscribe_payload() -> (r: String)
    ensures
        r@ == "{\"op\":\"subscribe\",\"args\":[\"tickers\"]}"@,
{
    "{\"op\":\"subscribe\",\"args\":[\"tickers\"]}".to_owned()
}

/// The application-level pong: owed exactly when the message is Bybit's
/// `{"op":"ping"}` keepalive (`is_ping` of its document); any other message
/// needs no reply.
pub fn keepalive_reply(txt: &str) -> (r: Option<String>)
    ensures
        (r is Some) == is_ping(crate::json::json_doc(txt@)),
        r matches Some(s) ==> s@ == "{\"op\":\"pong\"}"@,
{
    match parse_json(txt) {
        Some(v) => {
            let ghost m = value_model(v);
            match json_get(&v, "op") {
                Some(opv) => match json_as_str(opv) {
                    Some(op) => {
                        let oc = str_chars(op);
                        let pc = str_chars("ping");
                        if chars_eq(&oc, &pc) {
                            proof {
                                assert(obj_get(m, "op"@) == Some(JsonNode::Text("ping"@)));
                            }
                            Some("{\"op\":\"pong\"}".to_owned())
                        } else {
                            proof {
                                assert(obj_get(m, "op"@) != Some(JsonNode::Text("ping"@)));
                            }
                            None
                        }
                    },
                    None => None,
                },
                None => None,
            }
        },
        None => None,
    }
}

/// Decodes one ticker object and appends exactly the tick `tick_of_item`
/// names for it, if any.
fn push_tick(out: &mut Vec<PairPrice>, item: &serde_json::Value)
    requires
        all_ticks_ok(old(out)@),
    ensures
        all_ticks_ok(final(out)@),
        views_of(final(out)@) == views_of(old(out)@) + opt_tick_seq(
            tick_of_item(value_model(*item)),
        ),
{
    let ghost m = value_model(*item);
    let sym = match json_get(item, "symbol") {
        Some(v) => match json_as_str(v) {
            Some(s) => s.to_owned(),
            None => {
                proof {
                    assert(views_of(out@) =~= views_of(old(out)@) + opt_tick_seq(
                        tick_of_item(m),
                    ));
                }
                return ;
            },
        },
        None => {
            proof {
                assert(views_of(out@) =~= views_of(old(out)@) + opt_tick_seq(tick_of_item(m)));
            }
            return ;
        },
    };
    let price = match json_get(item, "lastPrice") {
        Some(v) => match price_from_value(v) {
            Some(p) => p,
            None => {
                proof {
                    assert(views_of(out@) =~= views_of(old(out)@) + opt_tick_seq(
                        tick_of_item(m),
                    ));
                }
                return ;
            },
        },
        None => {
            proof {
                assert(views_of(out@) =~= views_of(old(out)@) + opt_tick_seq(tick_of_item(m)));
            }
            return ;
        },
    };
    let (base, quote) = split_symbol(sym.as_str());
    if !base.as_str().is_empty() && !quote.as_str().is_empty() {
        let p = PairPrice {
            base,
            quote,
            price_num: price.0,
            price_den: price.1,
            volume: 0,
            is_spot: true,
        };
        proof {
            assert(tick_ok(p));
            assert(tick_of_item(m) == Some(pp_view(p)));
            lemma_views_push(old(out)@, p);
            assert(views_of(old(out)@).push(pp_view(p)) =~= views_of(old(out)@) + opt_tick_seq(
                tick_of_item(m),
            ));
        }
        out.push(p);
    } else {
        proof {
            assert(views_of(out@) =~= views_of(old(out)@) + opt_tick_seq(tick_of_item(m)));
        }
    }
}

/// Decodes one streaming message into exactly the ticks `decode_spec` names
/// for its document; anything malformed yields fewer or zero ticks, never
/// an error.
pub fn decode_message(txt: &str) -> (r: Vec<PairPrice>)
    ensures
        all_ticks_ok(r@),
        views_of(r@) == decode_spec(crate::json::json_doc(txt@)),
{
    let mut out: Vec<PairPrice> = Vec::new();
    proof {
        assert(views_of(out@) =~= Seq::<(Seq<char>, Seq<char>, u64, u64, u64, bool)>::empty());
    }
    match parse_json(txt) {
        Some(v) => {
            let ghost m = value_model(v);
            let is_tickers: bool;
            match json_get(&v, "topic") {
                Some(tv) => {
                    match json_as_str(tv) {
                        Some(topic) => {
                            let tc = str_chars(topic);
                            let want = str_chars("tickers");
                            is_tickers = chars_eq(&tc, &want);
                            proof {
                                assert(is_tickers == (obj_get(m, "topic"@) == Some(
                                    JsonNode::Text("tickers"@),
                                )));
                            }
                        },
                        None => {
                            is_tickers = false;
                            proof {
                                assert(obj_get(m, "topic"@) != Some(JsonNode::Text("tickers"@)));
                            }
                        },
                    }
                },
                None => {
                    is_tickers = false;
                    proof {
                        assert(obj_get(m, "topic"@) != Some(JsonNode::Text("tickers"@)));
                    }
                },
            }
            if is_tickers {
                match json_get(&v, "data") {
                    Some(dv) => {
                        match json_as_array(dv) {
                            Some(arr) => {
                                let ghost ms = models_of(arr@);
                                let mut i: usize = 0;
                                proof {
                                    assert(ms.take(0) =~= Seq::<JsonNode>::empty());
                                    assert(views_of(out@) =~= ticks_of_items(ms.take(0)));
                                }
                                while i < arr.len()
                                    invariant
                                        i <= arr@.len(),
                                        ms == models_of(arr@),
                                        all_ticks_ok(out@),
                                        views_of(out@) == ticks_of_items(ms.take(i as int)),
                                    decreases arr@.len() - i,
                                {
                                    push_tick(&mut out, &arr[i]);
                                    proof {
                                        assert(ms[i as int] == value_model(arr@[i as int]));
                                        assert(ms.take(i + 1).drop_last() =~= ms.take(i as int));
                                        assert(ms.take(i + 1).last() == ms[i as int]);
                                    }
                                    i += 1;
                                }
                                proof {
                                    assert(ms.take(ms.len() as int) =~= ms);
                                }
                            },
                            None => {
                            },
                        }
                    },
                    None => {
                    },
                }
            }
        },
        None => {
        },
    }
    out
}

/// No listed Bybit quote is a suffix of another: the ranked scan can
/// match at most one entry on any given symbol.
proof fn lemma_bquotes_pairwise(a: int, b: int)
    requires
        0 <= a < bquotes().len(),
        0 <= b < bquotes().len(),
        a != b,
    ensures
        !bquotes()[a].is_suffix_of(bquotes()[b]),
{
    reveal_strlit("USDT");
    reveal_strlit("USDC");
    reveal_strlit("BTC");
    reveal_strlit("ETH");
    if bquotes()[a].is_suffix_of(bquotes()[b]) {
        let qa = bquotes()[a];
        let qb = bquotes()[b];
        assert(forall|i: int|
            0 <= i < qa.len() ==> qa[i] == qb.subrange(
                (qb.len() - qa.len()) as int,
                qb.len() as int,
            )[i]);
        assert(qa[0] == qb[qb.len() - qa.len()]);
        assert(qa[qa.len() - 1] == qb[qb.len() - 1]);
        assert(qa.len() >= 2 ==> qa[1] == qb[qb.len() - qa.len() + 1]);
        assert(false);
    }
}

/// The round trip of the Bybit split: gluing a listed quote currency onto
/// a non-empty base and splitting again returns exactly that pair.
pub proof fn lemma_split_round_trip(base: Seq<char>, quote: Seq<char>)
    requires
        base.len() > 0,
        bquotes().contains(quote),
    ensures
        split_spec(base + quote) == (base, quote),
{
    let u = base + quote;
    let j = choose|j: int| 0 <= j < bquotes().len() && bquotes()[j] == quote;
    assert(quote =~= u.subrange((u.len() - quote.len()) as int, u.len() as int));
    assert(crate::symbols::qmatch(bquotes(), u, j));
    assert forall|k: int| 0 <= k < bquotes().len() && k != j implies !crate::symbols::qmatch(
        bquotes(),
        u,
        k,
    ) by {
        if crate::symbols::qmatch(bquotes(), u, k) {
            let qk = bquotes()[k];
            if qk.len() <= quote.len() {
                crate::symbols::lemma_suffix_of_suffix(qk, quote, u);
                lemma_bquotes_pairwise(k, j);
            } else {
                crate::symbols::lemma_suffix_of_suffix(quote, qk, u);
                lemma_bquotes_pairwise(j, k);
            }
        }
    }
    crate::symbols::lemma_first_suffix_from(bquotes(), u, j as nat);
    assert(first_suffix(bquotes(), u, 0) == j);
    assert(u.take(u.len() - quote.len()) =~= base);
}

} // verus!
