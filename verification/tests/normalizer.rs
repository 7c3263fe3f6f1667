use triscan::exchanges::{binance, bybit, kucoin};
use triscan::numbers::{parse_decimal, parse_volume_fp};
use triscan::symbols::{dynamic_split_symbol, normalize, split_once};
use triscan::text::str_chars;

#[test]
fn suffix_split_known_quote() {
    assert_eq!(
        dynamic_split_symbol("ADAUSDT"),
        Some(("ADA".to_string(), "USDT".to_string()))
    );
}

#[test]
fn suffix_split_uppercases_input() {
    assert_eq!(
        dynamic_split_symbol("adausdt"),
        Some(("ADA".to_string(), "USDT".to_string()))
    );
}

#[test]
fn suffix_split_round_trip_all_quotes() {
    // the normalizer round trip on every listed quote currency
    let quotes = [
        "USDT", "BUSD", "USDC", "FDUSD", "TUSD", "BTC", "ETH", "BNB", "TRY", "EUR", "GBP", "AUD",
        "BRL", "CAD", "ARS", "RUB", "ZAR", "NGN", "UAH", "IDR", "JPY", "KRW", "VND", "MXN",
    ];
    for q in quotes {
        let sym = format!("XYZ{}", q);
        assert_eq!(
            dynamic_split_symbol(&sym),
            Some(("XYZ".to_string(), q.to_string())),
            "round trip failed for quote {}",
            q
        );
    }
}

#[test]
fn suffix_split_fallback_last_three() {
    assert_eq!(
        dynamic_split_symbol("ABCDEFG"),
        Some(("ABCD".to_string(), "EFG".to_string()))
    );
}

#[test]
fn suffix_split_too_short_is_none() {
    assert_eq!(dynamic_split_symbol("AB"), None);
}

#[test]
fn normalize_separator_dash() {
    assert_eq!(
        normalize("BTC-USDT"),
        Some(("BTC".to_string(), "USDT".to_string()))
    );
}

#[test]
fn normalize_separator_underscore_lowercase() {
    assert_eq!(
        normalize("eth_btc"),
        Some(("ETH".to_string(), "BTC".to_string()))
    );
}

#[test]
fn normalize_empty_part_falls_through() {
    // "USDT-" splits into an empty part, so the separator stage does not
    // apply and no suffix leaves a non-empty base either
    assert_eq!(normalize("USDT-"), None);
}

#[test]
fn binance_split_known_suffix() {
    assert_eq!(
        binance::split_symbol("SOLBNB"),
        ("SOL".to_string(), "BNB".to_string())
    );
}

#[test]
fn binance_split_fallback() {
    assert_eq!(
        binance::split_symbol("ABCD"),
        ("A".to_string(), "BCD".to_string())
    );
}

#[test]
fn binance_split_too_short() {
    assert_eq!(binance::split_symbol("AB"), (String::new(), String::new()));
}

#[test]
fn bybit_split_no_fallback() {
    assert_eq!(
        bybit::split_symbol("XRPUSDT"),
        ("XRP".to_string(), "USDT".to_string())
    );
    assert_eq!(bybit::split_symbol("XRPFOO"), (String::new(), String::new()));
}

#[test]
fn kucoin_parse_symbol_dash() {
    assert_eq!(
        kucoin::parse_symbol("BTC-USDT"),
        Some(("BTC".to_string(), "USDT".to_string()))
    );
    assert_eq!(kucoin::parse_symbol("BTCUSDT"), None);
    assert_eq!(kucoin::parse_symbol("A-B-C"), None);
}

#[test]
fn split_once_exactly_one_separator() {
    assert_eq!(
        split_once("AAA_BBB", '_'),
        Some(("AAA".to_string(), "BBB".to_string()))
    );
    assert_eq!(split_once("A_B_C", '_'), None);
}

#[test]
fn decimal_parse_integer() {
    let v = str_chars("2");
    assert_eq!(parse_decimal(&v), Some((2, 1)));
}

#[test]
fn decimal_parse_trailing_zero_fraction() {
    let v = str_chars("2.0");
    assert_eq!(parse_decimal(&v), Some((2, 1)));
}

#[test]
fn decimal_parse_fraction() {
    let v = str_chars("0.2");
    assert_eq!(parse_decimal(&v), Some((2, 10)));
}

#[test]
fn decimal_parse_price_like() {
    let v = str_chars("62000.15");
    assert_eq!(parse_decimal(&v), Some((6200015, 100)));
}

#[test]
fn decimal_parse_rejects_exponent() {
    let v = str_chars("1e5");
    assert_eq!(parse_decimal(&v), None);
}

#[test]
fn decimal_parse_rejects_sign() {
    let v = str_chars("-3");
    assert_eq!(parse_decimal(&v), None);
}

#[test]
fn decimal_parse_rejects_empty() {
    let v = str_chars("");
    assert_eq!(parse_decimal(&v), None);
}

#[test]
fn volume_fixed_point() {
    let v = str_chars("2.5");
    assert_eq!(parse_volume_fp(&v), 25_000);
    let bad = str_chars("n/a");
    assert_eq!(parse_volume_fp(&bad), 0);
}
