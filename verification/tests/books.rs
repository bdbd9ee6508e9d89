use rock::decimal::Decimal;
use std::cmp::Ordering;

use rock::order_book::{AskLevel, BidLevel, spread, try_spread, Level, MergedOrderBook, OrderBookSnapshot, OrderBooks, SpreadOverflow};

fn d(m: i64) -> Decimal {
    Decimal::new(m, 0)
}

fn snap(bids: Vec<[Decimal; 2]>, asks: Vec<[Decimal; 2]>, exchange: &str, symbol: &str) -> OrderBookSnapshot {
    OrderBookSnapshot { bids, asks, exchange_name: exchange.to_string(), symbol: symbol.to_string() }
}

fn level(p: i64, q: i64, ex: &str) -> Level {
    Level { price: d(p), qty: d(q), exchange_name: ex.to_string() }
}

#[test]
fn new_snapshot_is_empty() {
    let s = OrderBookSnapshot::new();
    assert!(s.bids.is_empty() && s.asks.is_empty());
    assert_eq!(s.exchange_name, "");
    assert_eq!(s.symbol, "");
}

#[test]
fn clear_empties_the_book() {
    let mut mob = MergedOrderBook::new();
    mob.merge_snapshot(snap(vec![[d(1), d(1)]], vec![[d(2), d(1)]], "a", "s"));
    mob.clear();
    assert_eq!(mob.drain_sorted_bids(), vec![]);
    assert_eq!(mob.drain_sorted_asks(), vec![]);
}

#[test]
fn unsorted_snapshot_is_sorted_in_the_book() {
    let mut mob = MergedOrderBook::new();
    mob.merge_snapshot(snap(vec![[d(1), d(1)], [d(3), d(1)], [d(2), d(5)]], vec![[d(9), d(1)], [d(7), d(1)], [d(7), d(2)]], "a", "s"));
    assert_eq!(mob.drain_sorted_bids(), vec![level(3, 1, "a"), level(2, 5, "a"), level(1, 1, "a")]);
    assert_eq!(mob.drain_sorted_asks(), vec![level(7, 2, "a"), level(7, 1, "a"), level(9, 1, "a")]);
}

#[test]
fn equal_decimals_of_other_scale_rank_equal() {
    let mut mob = MergedOrderBook::new();
    mob.merge_snapshot(snap(vec![[d(5), d(1)]], vec![], "a", "s"));
    mob.merge_snapshot(snap(vec![[Decimal::new(50, 1), Decimal::new(10, 1)]], vec![], "b", "s"));
    let bids = mob.drain_sorted_bids();
    assert_eq!(bids[0].exchange_name, "a");
    assert_eq!(bids[1].exchange_name, "b");
}

#[test]
fn draining_bids_leaves_asks() {
    let mut mob = MergedOrderBook::new();
    mob.merge_snapshot(snap(vec![[d(1), d(1)]], vec![[d(2), d(1)]], "a", "s"));
    let copy = mob.clone();
    assert_eq!(mob.drain_sorted_bids(), vec![level(1, 1, "a")]);
    assert_eq!(mob.drain_sorted_asks(), vec![level(2, 1, "a")]);
    let mut copy = copy;
    assert_eq!(copy.drain_sorted_asks(), vec![level(2, 1, "a")]);
    assert_eq!(copy.drain_sorted_bids(), vec![level(1, 1, "a")]);
}

#[test]
fn books_are_kept_per_symbol() {
    let mut books = OrderBooks::new();
    books.merge_snapshot(snap(vec![[d(10), d(1)]], vec![], "a", "btcusd"));
    books.merge_snapshot(snap(vec![[d(20), d(1)]], vec![], "a", "ethbtc"));
    books.merge_snapshot(snap(vec![[d(11), d(1)]], vec![], "b", "btcusd"));
    assert_eq!(books.len(), 2);
    let (first, _) = books.entry(0);
    assert_eq!(first, "btcusd");
    let mut btc = books.get(&"btcusd".to_string()).unwrap().clone();
    assert_eq!(btc.drain_sorted_bids(), vec![level(11, 1, "b"), level(10, 1, "a")]);
    let mut eth = books.get(&"ethbtc".to_string()).unwrap().clone();
    assert_eq!(eth.drain_sorted_bids(), vec![level(20, 1, "a")]);
    assert!(books.get(&"xrpusd".to_string()).is_none());
}

#[test]
fn spread_is_best_ask_less_best_bid() {
    let bids = vec![level(10, 1, "a"), level(9, 1, "a")];
    let asks = vec![level(12, 1, "a")];
    assert_eq!(spread(&bids, &asks), Some(d(2)));
    assert_eq!(spread(&bids, &vec![]), None);
    assert_eq!(try_spread(&vec![], &asks), Ok(None));
    let max = Decimal::from_i128_with_scale(0xFFFF_FFFF_FFFF_FFFF_FFFF_FFFF, 0);
    let min = Decimal::from_i128_with_scale(-0xFFFF_FFFF_FFFF_FFFF_FFFF_FFFF, 0);
    let low = vec![Level { price: min, qty: d(1), exchange_name: "a".to_string() }];
    let high = vec![Level { price: max, qty: d(1), exchange_name: "a".to_string() }];
    assert_eq!(try_spread(&low, &high), Err(SpreadOverflow));
}

#[test]
fn bid_and_ask_levels_compare_as_their_sides_rank() {
    let bid = |p: i64, q: i64| BidLevel { data: level(p, q, "a") };
    let ask = |p: i64, q: i64| AskLevel { data: level(p, q, "a") };
    assert_eq!(bid(10, 1).partial_cmp(&bid(9, 5)), Some(Ordering::Greater));
    assert_eq!(bid(10, 1).partial_cmp(&bid(10, 2)), Some(Ordering::Less));
    assert_eq!(bid(10, 2).partial_cmp(&bid(10, 2)), Some(Ordering::Equal));
    assert_eq!(ask(10, 1).partial_cmp(&ask(9, 5)), Some(Ordering::Less));
    assert_eq!(ask(9, 1).partial_cmp(&ask(10, 5)), Some(Ordering::Greater));
    assert_eq!(ask(9, 3).partial_cmp(&ask(9, 2)), Some(Ordering::Greater));
    assert!(bid(10, 2) == BidLevel { data: Level { price: Decimal::new(100, 1), qty: d(2), exchange_name: "a".to_string() } });
    assert!(bid(10, 2) != BidLevel { data: level(10, 2, "b") });
}
