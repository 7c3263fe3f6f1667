use triscan::connector::{initial_state, step, ConnEvent, ConnPhase};
use triscan::exchanges::{binance, bybit, gateio, kucoin};
use triscan::graph::build;
use triscan::logic::{find_triangular_opportunities, run_scan};
use triscan::models::PairPrice;
use triscan::store::{gather_prices_for_exchanges, SnapshotStore};

fn pair(base: &str, quote: &str, num: u64, den: u64, vol: u64) -> PairPrice {
    PairPrice {
        base: base.to_string(),
        quote: quote.to_string(),
        price_num: num,
        price_den: den,
        volume: vol,
        is_spot: true,
    }
}

fn triangle_pairs() -> Vec<PairPrice> {
    // A/B = 2.0, B/C = 3.0, C/A = 0.2  =>  gross 1.2
    vec![
        pair("A", "B", 2, 1, 0),
        pair("B", "C", 3, 1, 0),
        pair("C", "A", 2, 10, 0),
    ]
}

#[test]
fn profitable_triangle_exact_figures() {
    let r = find_triangular_opportunities(triangle_pairs(), 0, 10, 100);
    assert_eq!(r.len(), 1);
    let o = &r[0];
    assert_eq!(o.triangle_a, "A");
    assert_eq!(o.triangle_b, "B");
    assert_eq!(o.triangle_c, "C");
    assert_eq!(o.pairs, vec!["A/B".to_string(), "B/C".to_string(), "C/A".to_string()]);
    assert_eq!(o.profit_before_centi, 2000); // 20.00 %
    assert_eq!(o.fees_centi, 30); // 3 x 0.10 %
    assert_eq!(o.profit_after_centi, 1964); // ~19.64 %
    assert_eq!(o.score_liquidity, 0);
}

#[test]
fn breakeven_cycle_yields_nothing() {
    // A/B = 2.0, B/C = 0.5, C/A = 1.0  =>  gross exactly 1.0
    let pairs = vec![
        pair("A", "B", 2, 1, 0),
        pair("B", "C", 5, 10, 0),
        pair("C", "A", 1, 1, 0),
    ];
    let r = find_triangular_opportunities(pairs, -10_000, 10, 100);
    assert_eq!(r.len(), 0);
}

#[test]
fn scan_is_deterministic() {
    let r1 = find_triangular_opportunities(triangle_pairs(), 0, 10, 100);
    let r2 = find_triangular_opportunities(triangle_pairs(), 0, 10, 100);
    assert_eq!(r1.len(), r2.len());
    for (x, y) in r1.iter().zip(r2.iter()) {
        assert_eq!(x.triangle_a, y.triangle_a);
        assert_eq!(x.triangle_b, y.triangle_b);
        assert_eq!(x.triangle_c, y.triangle_c);
    }
}

#[test]
fn higher_fee_never_raises_profit() {
    let cheap = find_triangular_opportunities(triangle_pairs(), -100_000, 0, 100);
    let dear = find_triangular_opportunities(triangle_pairs(), -100_000, 100, 100);
    assert_eq!(cheap.len(), 1);
    assert_eq!(dear.len(), 1);
    assert_eq!(cheap[0].profit_after_centi, 2000);
    assert_eq!(dear[0].profit_after_centi, 1644);
    assert!(dear[0].profit_after_centi <= cheap[0].profit_after_centi);
}

#[test]
fn neighbor_limit_keeps_higher_liquidity_edge() {
    let pairs = vec![
        pair("A", "B", 2, 1, 50_000),
        pair("A", "C", 3, 1, 100_000),
    ];
    let g = build(&pairs, 1);
    // node ids follow first appearance: A = 0, B = 1, C = 2
    assert_eq!(g.names[0], "A");
    assert_eq!(g.names[1], "B");
    assert_eq!(g.names[2], "C");
    assert_eq!(g.nbrs[0], vec![2usize]); // only the higher-liquidity edge A -> C
}

#[test]
fn non_positive_and_non_spot_quotes_are_dropped() {
    let mut pairs = triangle_pairs();
    pairs.push(pair("D", "E", 0, 1, 0)); // zero price
    let mut fut = pair("E", "F", 1, 1, 0);
    fut.is_spot = false;
    pairs.push(fut);
    pairs.push(pair("G", "G", 1, 1, 0)); // self loop
    let g = build(&pairs, 100);
    assert_eq!(g.names.len(), 3); // only A, B, C survive
}

#[test]
fn empty_store_scan_returns_empty_list() {
    let store = SnapshotStore::new();
    let exchanges = vec!["binance".to_string()];
    let r = run_scan(&store, &exchanges, 0, 10, 100);
    assert_eq!(r.len(), 0);
}

#[test]
fn store_write_read_case_insensitive() {
    let mut store = SnapshotStore::new();
    store.write("binance".to_string(), triangle_pairs());
    let got = store.read(&vec!["BINANCE".to_string()]);
    assert_eq!(got.len(), 3);
    assert_eq!(got[0].base, "A");
    let missing = store.read(&vec!["bogus".to_string()]);
    assert_eq!(missing.len(), 0);
    let gathered = gather_prices_for_exchanges(&store, &vec!["binance".to_string()]);
    assert_eq!(gathered.unwrap().len(), 3);
}

#[test]
fn store_write_replaces_whole_vector() {
    let mut store = SnapshotStore::new();
    store.write("gateio".to_string(), triangle_pairs());
    store.write("gateio".to_string(), vec![pair("X", "Y", 1, 1, 0)]);
    let got = store.read(&vec!["gateio".to_string()]);
    assert_eq!(got.len(), 1);
    assert_eq!(got[0].base, "X");
}

#[test]
fn malformed_message_mid_stream_is_survivable() {
    // a malformed frame decodes to nothing ...
    let bad = binance::decode_message("{this is not json");
    assert_eq!(bad.len(), 0);
    // ... the connector keeps streaming ...
    let s = step(
        &step(&step(&initial_state(), &ConnEvent::StartConnect), &ConnEvent::ConnectOk),
        &ConnEvent::SubscribeOk,
    );
    let s = step(&s, &ConnEvent::MessageHandled);
    assert_eq!(s.phase, ConnPhase::Streaming);
    // ... and the next valid message still yields its ticks
    let good = binance::decode_message(r#"[{"s":"ADAUSDT","c":"0.5","v":"1000"}]"#);
    assert_eq!(good.len(), 1);
    assert_eq!(good[0].base, "ADA");
    assert_eq!(good[0].quote, "USDT");
    assert_eq!(good[0].price_num, 5);
    assert_eq!(good[0].price_den, 10);
    assert_eq!(good[0].volume, 10_000_000);
}

#[test]
fn binance_numeric_price_field() {
    let got = binance::decode_message(r#"[{"s":"SOLBNB","c":0.25}]"#);
    assert_eq!(got.len(), 1);
    assert_eq!(got[0].base, "SOL");
    assert_eq!(got[0].quote, "BNB");
    assert_eq!(got[0].price_num, 25);
    assert_eq!(got[0].price_den, 100);
}

#[test]
fn binance_zero_price_is_dropped() {
    let got = binance::decode_message(r#"[{"s":"ADAUSDT","c":"0.00"}]"#);
    assert_eq!(got.len(), 0);
}

#[test]
fn bybit_decode_and_keepalive() {
    let got = bybit::decode_message(
        r#"{"topic":"tickers","data":[{"symbol":"XRPUSDT","lastPrice":"0.6"}]}"#,
    );
    assert_eq!(got.len(), 1);
    assert_eq!(got[0].base, "XRP");
    assert_eq!(got[0].quote, "USDT");
    assert_eq!(
        bybit::keepalive_reply(r#"{"op":"ping"}"#),
        Some(r#"{"op":"pong"}"#.to_string())
    );
    assert_eq!(bybit::keepalive_reply(r#"{"op":"subscribe"}"#), None);
    assert_eq!(bybit::keepalive_reply("garbage"), None);
}

#[test]
fn gateio_decode_and_payload() {
    let got = gateio::decode_message(
        r#"{"channel":"spot.tickers","result":[{"currency_pair":"BTC_USDT","last":"65000.5"}]}"#,
    );
    assert_eq!(got.len(), 1);
    assert_eq!(got[0].base, "BTC");
    assert_eq!(got[0].quote, "USDT");
    assert_eq!(got[0].price_num, 650_005);
    assert_eq!(got[0].price_den, 10);
    assert_eq!(
        gateio::subscribe_payload("123"),
        r#"{"time":123,"channel":"spot.tickers","event":"subscribe","payload":[]}"#
    );
}

#[test]
fn kucoin_decode_and_payload() {
    let got = kucoin::decode_message(r#"{"data":{"symbol":"BTC-USDT","price":"60000"}}"#);
    assert_eq!(got.len(), 1);
    assert_eq!(got[0].base, "BTC");
    assert_eq!(got[0].quote, "USDT");
    assert_eq!(got[0].price_num, 60_000);
    assert_eq!(got[0].price_den, 1);
    assert!(kucoin::subscribe_payload().contains("/market/ticker:all"));
}

#[test]
fn backoff_doubles_and_caps_then_resets() {
    let mut s = initial_state();
    assert_eq!(s.backoff_secs, 2);
    let expected = [4u64, 8, 16, 32, 60, 60];
    for e in expected {
        s = step(&s, &ConnEvent::ConnectFailed);
        assert_eq!(s.phase, ConnPhase::Disconnected);
        assert_eq!(s.backoff_secs, e);
    }
    s = step(&s, &ConnEvent::ConnectOk);
    assert_eq!(s.backoff_secs, 2);
}

#[test]
fn results_ranked_by_profit_then_liquidity() {
    // two disjoint triangles with different net profits
    let mut pairs = triangle_pairs(); // 19.64 % after fees
    pairs.push(pair("P", "Q", 11, 10, 7)); // P/Q = 1.1
    pairs.push(pair("Q", "R", 1, 1, 9));
    pairs.push(pair("R", "P", 1, 1, 8)); // gross 1.1 => ~9.67 % after fees
    let r = find_triangular_opportunities(pairs, 0, 10, 100);
    assert_eq!(r.len(), 2);
    assert!(r[0].profit_after_centi >= r[1].profit_after_centi);
    assert_eq!(r[0].triangle_a, "A");
    assert_eq!(r[1].triangle_a, "P");
    assert_eq!(r[1].score_liquidity, 7);
}

#[test]
fn binance_single_object_form() {
    let got = binance::decode_message(r#"{"s":"ETHBTC","c":"0.05","q":"12.5"}"#);
    assert_eq!(got.len(), 1);
    assert_eq!(got[0].base, "ETH");
    assert_eq!(got[0].quote, "BTC");
    assert_eq!(got[0].volume, 125_000);
}

#[test]
fn bybit_wrong_topic_yields_nothing() {
    let got = bybit::decode_message(
        r#"{"topic":"orderbook","data":[{"symbol":"XRPUSDT","lastPrice":"0.6"}]}"#,
    );
    assert_eq!(got.len(), 0);
}

#[test]
fn gateio_wrong_channel_yields_nothing() {
    let got = gateio::decode_message(
        r#"{"channel":"spot.trades","result":[{"currency_pair":"BTC_USDT","last":"65000.5"}]}"#,
    );
    assert_eq!(got.len(), 0);
}

#[test]
fn kucoin_without_data_yields_nothing() {
    let got = kucoin::decode_message(r#"{"type":"welcome","id":"x"}"#);
    assert_eq!(got.len(), 0);
}
