use rock::config::ExchangeInfo;
use rock::decimal::Decimal;
use rock::exchange::{BinanceCom, Bitstamp, Exchange};
use rock::json::Json;
use rock::order_book::{Level, MergedOrderBook, OrderBookSnapshot};
use std::collections::hash_map::DefaultHasher;
use std::hash::{Hash, Hasher};

fn d(m: i64) -> Decimal {
    Decimal::new(m, 0)
}

fn snap(bids: &[(i64, i64)], asks: &[(i64, i64)], exchange: &str) -> OrderBookSnapshot {
    OrderBookSnapshot {
        bids: bids.iter().map(|&(p, q)| [d(p), d(q)]).collect(),
        asks: asks.iter().map(|&(p, q)| [d(p), d(q)]).collect(),
        exchange_name: exchange.to_string(),
        symbol: "btcusd".to_string(),
    }
}

fn price_qty(levels: &[Level]) -> Vec<(Decimal, Decimal)> {
    levels.iter().map(|l| (l.price, l.qty)).collect()
}

#[test]
fn merging_a_snapshot_twice_changes_nothing() {
    let mut once = MergedOrderBook::new();
    once.merge_snapshot(snap(&[(10, 1), (9, 1), (8, 1)], &[(11, 1), (12, 1)], "a"));
    let b = snap(&[(10, 2), (7, 1), (6, 1), (5, 1), (4, 1), (3, 1), (2, 1), (1, 1)], &[(11, 1), (13, 2)], "b");
    once.merge_snapshot(b.clone());
    let mut twice = once.clone();
    twice.merge_snapshot(b);
    assert_eq!(twice.drain_sorted_bids(), once.clone().drain_sorted_bids());
    assert_eq!(twice.drain_sorted_asks(), once.drain_sorted_asks());
}

#[test]
fn merging_two_exchanges_in_either_order_gives_the_same_levels() {
    let a = snap(&[(10, 1), (9, 1), (8, 3), (7, 1), (6, 1), (5, 1)], &[(11, 1), (12, 2)], "a");
    let b = snap(&[(10, 1), (9, 2), (8, 3), (4, 1), (3, 1), (2, 1)], &[(11, 1), (12, 1)], "b");
    let mut ab = MergedOrderBook::new();
    ab.merge_snapshot(a.clone());
    ab.merge_snapshot(b.clone());
    let mut ba = MergedOrderBook::new();
    ba.merge_snapshot(b);
    ba.merge_snapshot(a);
    let ab_bids = ab.drain_sorted_bids();
    let ba_bids = ba.drain_sorted_bids();
    assert_eq!(ab_bids.len(), 10);
    assert_eq!(price_qty(&ab_bids), price_qty(&ba_bids));
    assert_eq!(price_qty(&ab.drain_sorted_asks()), price_qty(&ba.drain_sorted_asks()));
}

#[test]
fn binance_stream_of_subscribed_symbol_gives_the_symbol() {
    let msg = &BinanceCom.build_subscribe_msgs(&vec!["ethbtc".to_string()])[0];
    assert!(msg.contains("\"ethbtc@depth20@100ms\""));
    let json = Json::Object(vec![
        ("stream".to_string(), Json::Str("ethbtc@depth20@100ms".to_string())),
        (
            "data".to_string(),
            Json::Object(vec![
                ("bids".to_string(), Json::Array(vec![])),
                ("asks".to_string(), Json::Array(vec![])),
            ]),
        ),
    ]);
    assert_eq!(BinanceCom.parse_snapshot(&json).unwrap().symbol, "ethbtc");
}

#[test]
fn bitstamp_channel_of_subscribed_symbol_gives_the_symbol() {
    let msg = &Bitstamp.build_subscribe_msgs(&vec!["ethbtc".to_string()])[0];
    assert!(msg.contains("\"channel\":\"order_book_ethbtc\""));
    let json = Json::Object(vec![
        ("event".to_string(), Json::Str("data".to_string())),
        ("channel".to_string(), Json::Str("order_book_ethbtc".to_string())),
        (
            "data".to_string(),
            Json::Object(vec![
                ("bids".to_string(), Json::Array(vec![])),
                ("asks".to_string(), Json::Array(vec![])),
            ]),
        ),
    ]);
    assert_eq!(Bitstamp.parse_snapshot(&json).unwrap().symbol, "ethbtc");
}

#[test]
fn exchange_info_hashes_and_compares_by_name() {
    let info = |name: &str, url: &str| ExchangeInfo {
        name: name.to_string(),
        is_enabled: true,
        symbols_url: url.to_string(),
        api_url: url.to_string(),
    };
    let hash = |i: &ExchangeInfo| {
        let mut h = DefaultHasher::new();
        i.hash(&mut h);
        h.finish()
    };
    assert!(info("bitstamp", "x") == info("bitstamp", "y"));
    assert!(info("bitstamp", "x") != info("binance_com", "x"));
    assert_eq!(hash(&info("bitstamp", "x")), hash(&info("bitstamp", "y")));
}

#[test]
fn snapshots_compare_for_equality() {
    let a = snap(&[(1, 1)], &[], "a");
    assert_eq!(a, a.clone());
    assert_ne!(a, snap(&[(1, 2)], &[], "a"));
}
