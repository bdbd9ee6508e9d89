use rock::decimal::Decimal;
use rock::order_book::{Level, MergedOrderBook, OrderBookSnapshot};

fn snapshot(bids: Vec<[Decimal; 2]>, asks: Vec<[Decimal; 2]>, exchange_name: &str) -> OrderBookSnapshot {
    OrderBookSnapshot {
        bids,
        asks,
        exchange_name: exchange_name.to_string(),
        symbol: "btcusd".to_string(),
    }
}

#[test]
fn test_merged_order_book_empty_snapshot_gives_nothing_merged() {
    let bitstamp = "bitstamp";
    let mut mob = MergedOrderBook::new();
    let snap1 = OrderBookSnapshot { bids: vec![], asks: vec![], exchange_name: bitstamp.to_string(), symbol: "btcusd".to_string() };
    mob.merge_snapshot(snap1);

    assert_eq!(mob.drain_sorted_bids(), vec![]);
    assert_eq!(mob.drain_sorted_asks(), vec![]);
}

#[test]
fn test_merged_order_book_single_snapshot_gives_itself_back() {
    let bitstamp = "bitstamp";
    let mut mob = MergedOrderBook::new();
    let snap1 = snapshot(
        vec![[Decimal::new(10, 0), Decimal::new(1, 0)], [Decimal::new(9, 0), Decimal::new(1, 0)], [Decimal::new(8, 0), Decimal::new(1, 0)], [Decimal::new(7, 0), Decimal::new(1, 0)], [Decimal::new(6, 0), Decimal::new(1, 0)], [Decimal::new(5, 0), Decimal::new(1, 0)], [Decimal::new(4, 0), Decimal::new(1, 0)], [Decimal::new(3, 0), Decimal::new(1, 0)], [Decimal::new(2, 0), Decimal::new(1, 0)], [Decimal::new(1, 0), Decimal::new(1, 0)]],
        vec![[Decimal::new(11, 0), Decimal::new(1, 0)], [Decimal::new(12, 0), Decimal::new(1, 0)], [Decimal::new(13, 0), Decimal::new(1, 0)], [Decimal::new(14, 0), Decimal::new(1, 0)], [Decimal::new(15, 0), Decimal::new(1, 0)], [Decimal::new(16, 0), Decimal::new(1, 0)], [Decimal::new(17, 0), Decimal::new(1, 0)], [Decimal::new(18, 0), Decimal::new(1, 0)], [Decimal::new(19, 0), Decimal::new(1, 0)], [Decimal::new(20, 0), Decimal::new(1, 0)]],
        bitstamp,
    );
    mob.merge_snapshot(snap1);

    assert_eq!(mob.drain_sorted_bids(), vec![
        Level { price: Decimal::new(10, 0), qty: Decimal::new(1, 0), exchange_name: bitstamp.to_string() },
        Level { price: Decimal::new(9, 0), qty: Decimal::new(1, 0), exchange_name: bitstamp.to_string() },
        Level { price: Decimal::new(8, 0), qty: Decimal::new(1, 0), exchange_name: bitstamp.to_string() },
        Level { price: Decimal::new(7, 0), qty: Decimal::new(1, 0), exchange_name: bitstamp.to_string() },
        Level { price: Decimal::new(6, 0), qty: Decimal::new(1, 0), exchange_name: bitstamp.to_string() },
        Level { price: Decimal::new(5, 0), qty: Decimal::new(1, 0), exchange_name: bitstamp.to_string() },
        Level { price: Decimal::new(4, 0), qty: Decimal::new(1, 0), exchange_name: bitstamp.to_string() },
        Level { price: Decimal::new(3, 0), qty: Decimal::new(1, 0), exchange_name: bitstamp.to_string() },
        Level { price: Decimal::new(2, 0), qty: Decimal::new(1, 0), exchange_name: bitstamp.to_string() },
        Level { price: Decimal::new(1, 0), qty: Decimal::new(1, 0), exchange_name: bitstamp.to_string() },
    ]);
    assert_eq!(mob.drain_sorted_asks(), vec![
        Level { price: Decimal::new(11, 0), qty: Decimal::new(1, 0), exchange_name: bitstamp.to_string() },
        Level { price: Decimal::new(12, 0), qty: Decimal::new(1, 0), exchange_name: bitstamp.to_string() },
        Level { price: Decimal::new(13, 0), qty: Decimal::new(1, 0), exchange_name: bitstamp.to_string() },
        Level { price: Decimal::new(14, 0), qty: Decimal::new(1, 0), exchange_name: bitstamp.to_string() },
        Level { price: Decimal::new(15, 0), qty: Decimal::new(1, 0), exchange_name: bitstamp.to_string() },
        Level { price: Decimal::new(16, 0), qty: Decimal::new(1, 0), exchange_name: bitstamp.to_string() },
        Level { price: Decimal::new(17, 0), qty: Decimal::new(1, 0), exchange_name: bitstamp.to_string() },
        Level { price: Decimal::new(18, 0), qty: Decimal::new(1, 0), exchange_name: bitstamp.to_string() },
        Level { price: Decimal::new(19, 0), qty: Decimal::new(1, 0), exchange_name: bitstamp.to_string() },
        Level { price: Decimal::new(20, 0), qty: Decimal::new(1, 0), exchange_name: bitstamp.to_string() },
    ]);
}

#[test]
fn test_merged_order_book_multiple_snapshots_merged_sorted_and_capped() {
    let bitstamp = "bitstamp";
    let binance_com = "binance_com";
    let mut mob = MergedOrderBook::new();
    let snap1 = snapshot(vec![[Decimal::new(10, 0), Decimal::new(1, 0)], [Decimal::new(9, 0), Decimal::new(1, 0)], [Decimal::new(8, 0), Decimal::new(1, 0)], [Decimal::new(7, 0), Decimal::new(1, 0)], [Decimal::new(6, 0), Decimal::new(1, 0)], [Decimal::new(5, 0), Decimal::new(1, 0)], [Decimal::new(4, 0), Decimal::new(1, 0)], [Decimal::new(3, 0), Decimal::new(1, 0)], [Decimal::new(2, 0), Decimal::new(1, 0)], [Decimal::new(1, 0), Decimal::new(1, 0)]], vec![[Decimal::new(11, 0), Decimal::new(1, 0)], [Decimal::new(12, 0), Decimal::new(1, 0)], [Decimal::new(13, 0), Decimal::new(1, 0)], [Decimal::new(14, 0), Decimal::new(1, 0)], [Decimal::new(15, 0), Decimal::new(1, 0)], [Decimal::new(16, 0), Decimal::new(1, 0)], [Decimal::new(17, 0), Decimal::new(1, 0)], [Decimal::new(18, 0), Decimal::new(1, 0)], [Decimal::new(19, 0), Decimal::new(1, 0)], [Decimal::new(20, 0), Decimal::new(1, 0)]], bitstamp);
    mob.merge_snapshot(snap1);

    let snap2 = snapshot(vec![[Decimal::new(10, 0), Decimal::new(2, 0)], [Decimal::new(9, 0), Decimal::new(2, 0)], [Decimal::new(8, 0), Decimal::new(2, 0)], [Decimal::new(7, 0), Decimal::new(2, 0)], [Decimal::new(6, 0), Decimal::new(1, 0)], [Decimal::new(5, 0), Decimal::new(2, 0)], [Decimal::new(4, 0), Decimal::new(2, 0)], [Decimal::new(3, 0), Decimal::new(2, 0)], [Decimal::new(2, 0), Decimal::new(2, 0)], [Decimal::new(1, 0), Decimal::new(2, 0)]], vec![[Decimal::new(11, 0), Decimal::new(2, 0)], [Decimal::new(12, 0), Decimal::new(2, 0)], [Decimal::new(13, 0), Decimal::new(2, 0)], [Decimal::new(14, 0), Decimal::new(2, 0)], [Decimal::new(15, 0), Decimal::new(2, 0)], [Decimal::new(16, 0), Decimal::new(2, 0)], [Decimal::new(17, 0), Decimal::new(2, 0)], [Decimal::new(18, 0), Decimal::new(2, 0)], [Decimal::new(19, 0), Decimal::new(2, 0)], [Decimal::new(20, 0), Decimal::new(2, 0)]], binance_com);
    mob.merge_snapshot(snap2);

    // - for bids the price level with biggest price is on top
    // - for asks the price level with lowest price is on top
    // - for price levels with same price the price level with biggest qty is closer to top
    // - for price levels with same price and qty the price level that was added first is closer to top
    assert_eq!(mob.drain_sorted_bids(), vec![
        Level { price: Decimal::new(10, 0), qty: Decimal::new(2, 0), exchange_name: binance_com.to_string() },
        Level { price: Decimal::new(10, 0), qty: Decimal::new(1, 0), exchange_name: bitstamp.to_string() },
        Level { price: Decimal::new(9, 0), qty: Decimal::new(2, 0), exchange_name: binance_com.to_string() },
        Level { price: Decimal::new(9, 0), qty: Decimal::new(1, 0), exchange_name: bitstamp.to_string() },
        Level { price: Decimal::new(8, 0), qty: Decimal::new(2, 0), exchange_name: binance_com.to_string() },
        Level { price: Decimal::new(8, 0), qty: Decimal::new(1, 0), exchange_name: bitstamp.to_string() },
        Level { price: Decimal::new(7, 0), qty: Decimal::new(2, 0), exchange_name: binance_com.to_string() },
        Level { price: Decimal::new(7, 0), qty: Decimal::new(1, 0), exchange_name: bitstamp.to_string() },
        Level { price: Decimal::new(6, 0), qty: Decimal::new(1, 0), exchange_name: bitstamp.to_string() },
        Level { price: Decimal::new(6, 0), qty: Decimal::new(1, 0), exchange_name: binance_com.to_string() },
    ]);
    assert_eq!(mob.drain_sorted_asks(), vec![
        Level { price: Decimal::new(11, 0), qty: Decimal::new(2, 0), exchange_name: binance_com.to_string() },
        Level { price: Decimal::new(11, 0), qty: Decimal::new(1, 0), exchange_name: bitstamp.to_string() },
        Level { price: Decimal::new(12, 0), qty: Decimal::new(2, 0), exchange_name: binance_com.to_string() },
        Level { price: Decimal::new(12, 0), qty: Decimal::new(1, 0), exchange_name: bitstamp.to_string() },
        Level { price: Decimal::new(13, 0), qty: Decimal::new(2, 0), exchange_name: binance_com.to_string() },
        Level { price: Decimal::new(13, 0), qty: Decimal::new(1, 0), exchange_name: bitstamp.to_string() },
        Level { price: Decimal::new(14, 0), qty: Decimal::new(2, 0), exchange_name: binance_com.to_string() },
        Level { price: Decimal::new(14, 0), qty: Decimal::new(1, 0), exchange_name: bitstamp.to_string() },
        Level { price: Decimal::new(15, 0), qty: Decimal::new(2, 0), exchange_name: binance_com.to_string() },
        Level { price: Decimal::new(15, 0), qty: Decimal::new(1, 0), exchange_name: bitstamp.to_string() },
    ]);

    assert_eq!(mob.drain_sorted_bids(), vec![]);
    assert_eq!(mob.drain_sorted_asks(), vec![]);
}

#[test]
fn test_merged_order_book_multiple_snapshots_old_entries_removed() {
    let bitstamp = "bitstamp";
    let binance_com = "binance_com";
    let mut mob = MergedOrderBook::new();
    let snap1 = snapshot(vec![[Decimal::new(10, 0), Decimal::new(1, 0)], [Decimal::new(9, 0), Decimal::new(1, 0)], [Decimal::new(8, 0), Decimal::new(1, 0)], [Decimal::new(7, 0), Decimal::new(1, 0)], [Decimal::new(6, 0), Decimal::new(1, 0)], [Decimal::new(5, 0), Decimal::new(1, 0)], [Decimal::new(4, 0), Decimal::new(1, 0)], [Decimal::new(3, 0), Decimal::new(1, 0)], [Decimal::new(2, 0), Decimal::new(1, 0)], [Decimal::new(1, 0), Decimal::new(1, 0)]], vec![[Decimal::new(11, 0), Decimal::new(1, 0)], [Decimal::new(12, 0), Decimal::new(1, 0)], [Decimal::new(13, 0), Decimal::new(1, 0)], [Decimal::new(14, 0), Decimal::new(1, 0)], [Decimal::new(15, 0), Decimal::new(1, 0)], [Decimal::new(16, 0), Decimal::new(1, 0)], [Decimal::new(17, 0), Decimal::new(1, 0)], [Decimal::new(18, 0), Decimal::new(1, 0)], [Decimal::new(19, 0), Decimal::new(1, 0)], [Decimal::new(20, 0), Decimal::new(1, 0)]], bitstamp);
    mob.merge_snapshot(snap1);

    let snap2 = snapshot(vec![[Decimal::new(10, 0), Decimal::new(2, 0)], [Decimal::new(9, 0), Decimal::new(2, 0)], [Decimal::new(8, 0), Decimal::new(2, 0)], [Decimal::new(7, 0), Decimal::new(2, 0)], [Decimal::new(6, 0), Decimal::new(1, 0)], [Decimal::new(5, 0), Decimal::new(2, 0)], [Decimal::new(4, 0), Decimal::new(2, 0)], [Decimal::new(3, 0), Decimal::new(2, 0)], [Decimal::new(2, 0), Decimal::new(2, 0)], [Decimal::new(1, 0), Decimal::new(2, 0)]], vec![[Decimal::new(11, 0), Decimal::new(2, 0)], [Decimal::new(12, 0), Decimal::new(2, 0)], [Decimal::new(13, 0), Decimal::new(2, 0)], [Decimal::new(14, 0), Decimal::new(2, 0)], [Decimal::new(15, 0), Decimal::new(2, 0)], [Decimal::new(16, 0), Decimal::new(2, 0)], [Decimal::new(17, 0), Decimal::new(2, 0)], [Decimal::new(18, 0), Decimal::new(2, 0)], [Decimal::new(19, 0), Decimal::new(2, 0)], [Decimal::new(20, 0), Decimal::new(2, 0)]], binance_com);
    mob.merge_snapshot(snap2);

    let snap3 = snapshot(vec![[Decimal::new(5, 0), Decimal::new(2, 0)]], vec![[Decimal::new(16, 0), Decimal::new(2, 0)]], binance_com);
    mob.merge_snapshot(snap3);

    // the old binance_com entries are gone
    assert_eq!(mob.drain_sorted_bids(), vec![
        Level { price: Decimal::new(10, 0), qty: Decimal::new(1, 0), exchange_name: bitstamp.to_string() },
        Level { price: Decimal::new(9, 0), qty: Decimal::new(1, 0), exchange_name: bitstamp.to_string() },
        Level { price: Decimal::new(8, 0), qty: Decimal::new(1, 0), exchange_name: bitstamp.to_string() },
        Level { price: Decimal::new(7, 0), qty: Decimal::new(1, 0), exchange_name: bitstamp.to_string() },
        Level { price: Decimal::new(6, 0), qty: Decimal::new(1, 0), exchange_name: bitstamp.to_string() },
        Level { price: Decimal::new(5, 0), qty: Decimal::new(2, 0), exchange_name: binance_com.to_string() },
    ]);
    assert_eq!(mob.drain_sorted_asks(), vec![
        Level { price: Decimal::new(11, 0), qty: Decimal::new(1, 0), exchange_name: bitstamp.to_string() },
        Level { price: Decimal::new(12, 0), qty: Decimal::new(1, 0), exchange_name: bitstamp.to_string() },
        Level { price: Decimal::new(13, 0), qty: Decimal::new(1, 0), exchange_name: bitstamp.to_string() },
        Level { price: Decimal::new(14, 0), qty: Decimal::new(1, 0), exchange_name: bitstamp.to_string() },
        Level { price: Decimal::new(15, 0), qty: Decimal::new(1, 0), exchange_name: bitstamp.to_string() },
        Level { price: Decimal::new(16, 0), qty: Decimal::new(2, 0), exchange_name: binance_com.to_string() },
    ]);

    assert_eq!(mob.drain_sorted_bids(), vec![]);
    assert_eq!(mob.drain_sorted_asks(), vec![]);
}
