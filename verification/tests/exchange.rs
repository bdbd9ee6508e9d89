use rock::decimal::Decimal;
use rock::exchange::{build_exchange, BinanceCom, Bitstamp, Exchange, ExchangeKind, MalformedMessage};
use rock::json::Json;
use rock::order_book::OrderBookSnapshot;

fn s(text: &str) -> Json {
    Json::Str(text.to_string())
}

fn obj(members: Vec<(&str, Json)>) -> Json {
    Json::Object(members.into_iter().map(|(k, v)| (k.to_string(), v)).collect())
}

fn arr(items: Vec<Json>) -> Json {
    Json::Array(items)
}

fn pair(price: &str, qty: &str) -> Json {
    arr(vec![s(price), s(qty)])
}

fn d(m: i64, scale: u32) -> Decimal {
    Decimal::new(m, scale)
}

fn strings(items: &[&str]) -> Vec<String> {
    items.iter().map(|x| x.to_string()).collect()
}

#[test]
fn binance_symbols_are_lower_cased_base_and_quote() {
    let json = obj(vec![(
        "symbols",
        arr(vec![
            obj(vec![("symbol", s("BTCUSDT")), ("baseAsset", s("BTC")), ("quoteAsset", s("USDT"))]),
            obj(vec![("baseAsset", s("ETH")), ("quoteAsset", s("Btc"))]),
        ]),
    )]);
    assert_eq!(BinanceCom.parse_symbols(&json), strings(&["btcusdt", "ethbtc"]));
}

#[test]
fn binance_symbols_malformed_is_refused() {
    let json = obj(vec![("symbols", arr(vec![obj(vec![("baseAsset", s("BTC"))])]))]);
    assert_eq!(BinanceCom.try_parse_symbols(&json), Err(MalformedMessage));
    assert_eq!(BinanceCom.try_parse_symbols(&arr(vec![])), Err(MalformedMessage));
}

#[test]
fn bitstamp_symbols_are_url_symbols() {
    let json = arr(vec![
        obj(vec![("name", s("BTC/USD")), ("url_symbol", s("btcusd"))]),
        obj(vec![("url_symbol", s("ethbtc"))]),
    ]);
    assert_eq!(Bitstamp.parse_symbols(&json), strings(&["btcusd", "ethbtc"]));
    assert_eq!(Bitstamp.try_parse_symbols(&obj(vec![])), Err(MalformedMessage));
}

#[test]
fn binance_subscribe_message_lists_every_channel() {
    let msgs = BinanceCom.build_subscribe_msgs(&strings(&["btcusdt", "ethbtc"]));
    assert_eq!(
        msgs,
        strings(&[
            "{\"method\":\"SUBSCRIBE\",\"params\":[\"btcusdt@depth20@100ms\",\"ethbtc@depth20@100ms\"],\"id\":1}"
        ])
    );
    let none = BinanceCom.build_subscribe_msgs(&vec![]);
    assert_eq!(none, strings(&["{\"method\":\"SUBSCRIBE\",\"params\":[],\"id\":1}"]));
}

#[test]
fn bitstamp_subscribe_message_per_symbol() {
    let msgs = Bitstamp.build_subscribe_msgs(&strings(&["btcusd", "ethbtc"]));
    assert_eq!(
        msgs,
        strings(&[
            "{\"event\":\"bts:subscribe\",\"data\":{\"channel\":\"order_book_btcusd\"}}",
            "{\"event\":\"bts:subscribe\",\"data\":{\"channel\":\"order_book_ethbtc\"}}",
        ])
    );
    assert_eq!(Bitstamp.build_subscribe_msgs(&vec![]), Vec::<String>::new());
}

fn depth(bids: Vec<Json>, asks: Vec<Json>) -> Json {
    obj(vec![("bids", arr(bids)), ("asks", arr(asks))])
}

#[test]
fn binance_snapshot_is_read() {
    let json = obj(vec![
        ("stream", s("btcusdt@depth20@100ms")),
        ("data", depth(vec![pair("10.50", "1.5"), pair("10", "2")], vec![pair("11", "0.001")])),
    ]);
    let snap = BinanceCom.parse_snapshot(&json).unwrap();
    assert_eq!(
        snap,
        OrderBookSnapshot {
            bids: vec![[d(1050, 2), d(15, 1)], [d(10, 0), d(2, 0)]],
            asks: vec![[d(11, 0), d(1, 3)]],
            exchange_name: "binance_com".to_string(),
            symbol: "btcusdt".to_string(),
        }
    );
    assert_eq!(snap.bids[0][0].mantissa(), 1050);
    assert_eq!(snap.bids[0][0].scale(), 2);
}

#[test]
fn binance_snapshot_keeps_top_ten_levels() {
    let bids: Vec<Json> = (0..15).map(|i| pair(&format!("{}", 100 - i), "1")).collect();
    let json = obj(vec![("stream", s("ethbtc")), ("data", depth(bids, vec![]))]);
    let snap = BinanceCom.parse_snapshot(&json).unwrap();
    assert_eq!(snap.bids.len(), 10);
    assert_eq!(snap.bids[9][0], d(91, 0));
    assert_eq!(snap.asks.len(), 0);
    // no `@` in the stream name: the symbol is empty
    assert_eq!(snap.symbol, "");
}

#[test]
fn binance_message_without_stream_has_no_snapshot() {
    let json = obj(vec![("result", Json::Null), ("id", Json::Number("1".to_string()))]);
    assert_eq!(BinanceCom.parse_snapshot(&json), None);
}

#[test]
fn binance_malformed_snapshot_is_refused() {
    let bad_price = obj(vec![("stream", s("btcusdt@depth")), ("data", depth(vec![pair("ten", "1")], vec![]))]);
    assert_eq!(BinanceCom.try_parse_snapshot(&bad_price), Err(MalformedMessage));
    let short_pair = obj(vec![("stream", s("btcusdt@depth")), ("data", depth(vec![arr(vec![s("1")])], vec![]))]);
    assert_eq!(BinanceCom.try_parse_snapshot(&short_pair), Err(MalformedMessage));
    let no_data = obj(vec![("stream", s("btcusdt@depth"))]);
    assert_eq!(BinanceCom.try_parse_snapshot(&no_data), Err(MalformedMessage));
    let stream_not_text = obj(vec![("stream", Json::Bool(true)), ("data", depth(vec![], vec![]))]);
    assert_eq!(BinanceCom.try_parse_snapshot(&stream_not_text), Err(MalformedMessage));
}

#[test]
fn bitstamp_snapshot_is_read() {
    let json = obj(vec![
        ("channel", s("order_book_btcusd")),
        ("event", s("data")),
        ("data", depth(vec![pair("20000.1", "0.5")], vec![pair("20001", "3")])),
    ]);
    let snap = Bitstamp.parse_snapshot(&json).unwrap();
    assert_eq!(
        snap,
        OrderBookSnapshot {
            bids: vec![[d(200001, 1), d(5, 1)]],
            asks: vec![[d(20001, 0), d(3, 0)]],
            exchange_name: "bitstamp".to_string(),
            symbol: "btcusd".to_string(),
        }
    );
}

#[test]
fn bitstamp_channel_without_underscore_drops_first_char() {
    let json = obj(vec![("channel", s("xbtcusd")), ("event", s("data")), ("data", depth(vec![], vec![]))]);
    assert_eq!(Bitstamp.parse_snapshot(&json).unwrap().symbol, "btcusd");
    let empty = obj(vec![("channel", s("")), ("event", s("data")), ("data", depth(vec![], vec![]))]);
    assert_eq!(Bitstamp.try_parse_snapshot(&empty), Err(MalformedMessage));
}

#[test]
fn bitstamp_other_events_have_no_snapshot() {
    let json = obj(vec![("channel", s("order_book_btcusd")), ("event", s("bts:subscription_succeeded"))]);
    assert_eq!(Bitstamp.parse_snapshot(&json), None);
    let no_channel = obj(vec![("event", s("data"))]);
    assert_eq!(Bitstamp.parse_snapshot(&no_channel), None);
    let no_event = obj(vec![("channel", s("order_book_btcusd"))]);
    assert_eq!(Bitstamp.try_parse_snapshot(&no_event), Err(MalformedMessage));
}

#[test]
fn exchanges_are_built_by_name() {
    assert_eq!(build_exchange("binance_com".to_string()), Some(ExchangeKind::BinanceCom(BinanceCom)));
    assert_eq!(build_exchange("bitstamp".to_string()), Some(ExchangeKind::Bitstamp(Bitstamp)));
    assert_eq!(build_exchange("kraken".to_string()), None);
    let ex = build_exchange("bitstamp".to_string()).unwrap();
    assert_eq!(ex.build_subscribe_msgs(&strings(&["x"])).len(), 1);
}
