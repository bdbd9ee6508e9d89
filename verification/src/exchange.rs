//! The exchanges: how each one names its symbols, how to subscribe to its order
//! book stream, and how to read the snapshots it sends.

use vstd::prelude::*;
use vstd::string::StrSliceExecFns;

use crate::decimal::{parsed_decimal, Decimal, DecimalView};
use crate::json::Json;
use crate::order_book::{raw_pair, top, OrderBookSnapshot, SnapshotView, TOP_K};
use crate::text::{
    find_first, find_last, first_index_of, join, join_strings, last_index_of, lowercase, owned,
    strings_view, to_lowercase,
};

verus! {

/// A message that does not have the shape that the exchange's format promises.
#[derive(Debug, PartialEq, Eq, Structural, Clone, Copy)]
pub struct MalformedMessage;

// ---------------------------------------------------------------------------
// Depth messages common to the exchanges

/// The `[price, quantity]` pair that a JSON element `["<price>", "<quantity>", ..]`
/// holds, `None` where the element is not such a pair of decimals.
pub open spec fn level_entry(e: Json) -> Option<(DecimalView, DecimalView)> {
    match e.elements() {
        Some(items) => if items.len() >= 2 {
            match (items[0].text(), items[1].text()) {
                (Some(p), Some(q)) => match (parsed_decimal(p), parsed_decimal(q)) {
                    (Some(a), Some(b)) => Some((a, b)),
                    _ => None,
                },
                _ => None,
            }
        } else {
            None
        },
        None => None,
    }
}

/// Every element is a `[price, quantity]` pair.
pub open spec fn levels_ok(entries: Seq<Json>) -> bool {
    forall|i: int| 0 <= i < entries.len() ==> (#[trigger] level_entry(entries[i])) is Some
}

/// The first `TOP_K` pairs of the elements.
pub open spec fn parsed_levels(entries: Seq<Json>) -> Seq<(DecimalView, DecimalView)> {
    top(entries.map_values(|e: Json| level_entry(e).unwrap()), TOP_K as nat)
}

/// The elements of `data.<side>` in a depth message.
pub open spec fn side_entries(json: Json, side: Seq<char>) -> Option<Seq<Json>> {
    match json.field("data"@) {
        Some(data) => match data.field(side) {
            Some(levels) => levels.elements(),
            None => None,
        },
        None => None,
    }
}

/// A depth message has `data.bids` and `data.asks`, arrays of pairs.
pub open spec fn depth_ok(json: Json) -> bool {
    &&& side_entries(json, "bids"@) matches Some(b) && levels_ok(b)
    &&& side_entries(json, "asks"@) matches Some(a) && levels_ok(a)
}

/// The snapshot that a depth message gives for the exchange `name` and `symbol`.
pub open spec fn depth_snapshot(json: Json, name: Seq<char>, symbol: Seq<char>) -> SnapshotView {
    SnapshotView {
        bids: parsed_levels(side_entries(json, "bids"@).unwrap()),
        asks: parsed_levels(side_entries(json, "asks"@).unwrap()),
        exchange_name: name,
        symbol: symbol,
    }
}

/// The pair that an element holds.
fn parse_level(e: &Json) -> (res: Option<[Decimal; 2]>)
    ensures
        match res {
            Some(r) => level_entry(*e) == Some(raw_pair(r)),
            None => level_entry(*e) is None,
        },
{
    let items = match e.as_array() {
        Some(items) => items,
        None => return None,
    };
    if items.len() < 2 {
        return None;
    }
    let p = match items[0].as_str() {
        Some(p) => p,
        None => return None,
    };
    let q = match items[1].as_str() {
        Some(q) => q,
        None => return None,
    };
    let price = match Decimal::from_str(p.as_str()) {
        Some(d) => d,
        None => return None,
    };
    let qty = match Decimal::from_str(q.as_str()) {
        Some(d) => d,
        None => return None,
    };
    Some([price, qty])
}

/// The first `TOP_K` pairs of the elements, all of which must be pairs.
fn parse_levels(entries: &Vec<Json>) -> (res: Result<Vec<[Decimal; 2]>, MalformedMessage>)
    ensures
        res is Ok <==> levels_ok(entries@),
        res matches Ok(v) ==> v@.map_values(|r: [Decimal; 2]| raw_pair(r)) == parsed_levels(
            entries@,
        ),
{
    let ghost all = entries@.map_values(|e: Json| level_entry(e).unwrap());
    let mut levels: Vec<[Decimal; 2]> = Vec::new();
    let mut i: usize = 0;
    while i < entries.len()
        invariant
            0 <= i <= entries.len(),
            all == entries@.map_values(|e: Json| level_entry(e).unwrap()),
            levels@.len() == i,
            forall|j: int| 0 <= j < i ==> (#[trigger] level_entry(entries@[j])) is Some,
            forall|j: int| 0 <= j < i ==> raw_pair(#[trigger] levels@[j]) == all[j],
        decreases entries.len() - i,
    {
        match parse_level(&entries[i]) {
            Some(pair) => {
                levels.push(pair);
            },
            None => {
                return Err(MalformedMessage);
            },
        }
        i = i + 1;
    }
    levels.truncate(TOP_K);
    assert(levels@.map_values(|r: [Decimal; 2]| raw_pair(r)) =~= top(all, TOP_K as nat));
    Ok(levels)
}

/// The snapshot of a depth message for the exchange `name` and `symbol`.
fn parse_depth(json: &Json, name: &str, symbol: String) -> (res: Result<
    OrderBookSnapshot,
    MalformedMessage,
>)
    ensures
        res is Ok <==> depth_ok(*json),
        res matches Ok(s) ==> s@ == depth_snapshot(*json, name@, symbol@),
{
    let data = match json.get("data") {
        Some(d) => d,
        None => return Err(MalformedMessage),
    };
    let bids_json = match data.get("bids") {
        Some(b) => b,
        None => return Err(MalformedMessage),
    };
    let bids_entries = match bids_json.as_array() {
        Some(b) => b,
        None => return Err(MalformedMessage),
    };
    let asks_json = match data.get("asks") {
        Some(a) => a,
        None => return Err(MalformedMessage),
    };
    let asks_entries = match asks_json.as_array() {
        Some(a) => a,
        None => return Err(MalformedMessage),
    };
    let bids = parse_levels(bids_entries)?;
    let asks = parse_levels(asks_entries)?;
    Ok(OrderBookSnapshot { bids, asks, exchange_name: owned(name), symbol })
}

// ---------------------------------------------------------------------------
// The exchanges

/// The views of an optional snapshot.
pub open spec fn snapshot_view(s: Option<OrderBookSnapshot>) -> Option<SnapshotView> {
    match s {
        Some(s) => Some(s@),
        None => None,
    }
}

/// What the library knows of an exchange's formats.
pub trait Exchange {
    /// The symbols message has the exchange's shape.
    spec fn symbols_ok(&self, json: Json) -> bool;

    /// The symbols that a symbols message lists, in its order.
    spec fn symbols_of(&self, json: Json) -> Seq<Seq<char>>;

    /// The messages that subscribe to the order books of `symbols`.
    spec fn subscribe_msgs_of(&self, symbols: Seq<Seq<char>>) -> Seq<Seq<char>>;

    /// The stream message has the exchange's shape.
    spec fn snapshot_ok(&self, json: Json) -> bool;

    /// The snapshot that a stream message carries, `None` for a message that carries
    /// none.
    spec fn snapshot_of(&self, json: Json) -> Option<SnapshotView>;

    /// The symbols of a symbols message, or `MalformedMessage` where the message does
    /// not have the exchange's shape.
    fn try_parse_symbols(&self, json: &Json) -> (res: Result<Vec<String>, MalformedMessage>)
        ensures
            res is Ok <==> self.symbols_ok(*json),
            res matches Ok(v) ==> strings_view(v@) == self.symbols_of(*json),
    ;

    /// The symbols of a symbols message.
    fn parse_symbols(&self, json: &Json) -> (res: Vec<String>)
        requires
            self.symbols_ok(*json),
        ensures
            strings_view(res@) == self.symbols_of(*json),
    {
        match self.try_parse_symbols(json) {
            Ok(symbols) => symbols,
            Err(_) => {
                proof {
                    assert(false);
                }
                Vec::new()
            },
        }
    }

    /// The messages that subscribe to the order books of `symbols`.
    fn build_subscribe_msgs(&self, symbols: &Vec<String>) -> (res: Vec<String>)
        ensures
            strings_view(res@) == self.subscribe_msgs_of(strings_view(symbols@)),
    ;

    /// The snapshot of a stream message, or `MalformedMessage` where the message does
    /// not have the exchange's shape.
    fn try_parse_snapshot(&self, json: &Json) -> (res: Result<
        Option<OrderBookSnapshot>,
        MalformedMessage,
    >)
        ensures
            res is Ok <==> self.snapshot_ok(*json),
            res matches Ok(s) ==> snapshot_view(s) == self.snapshot_of(*json),
            res matches Ok(Some(s)) ==> s.bids@.len() <= TOP_K && s.asks@.len() <= TOP_K,
    ;

    /// The snapshot of a stream message, `None` for a message that carries none.
    fn parse_snapshot(&self, json: &Json) -> (res: Option<OrderBookSnapshot>)
        requires
            self.snapshot_ok(*json),
        ensures
            snapshot_view(res) == self.snapshot_of(*json),
            res matches Some(s) ==> s.bids@.len() <= TOP_K && s.asks@.len() <= TOP_K,
    {
        match self.try_parse_snapshot(json) {
            Ok(snapshot) => snapshot,
            Err(_) => {
                proof {
                    assert(false);
                }
                None
            },
        }
    }
}

proof fn lemma_parsed_levels_capped(entries: Seq<Json>)
    ensures
        parsed_levels(entries).len() <= TOP_K,
{
}

// ---------------------------------------------------------------------------
// binance.com

/// binance.com.
#[derive(Debug, PartialEq, Eq, Structural, Clone, Copy)]
pub struct BinanceCom;

/// A symbol entry of binance.com has the strings `baseAsset` and `quoteAsset`.
pub open spec fn binance_pair_ok(e: Json) -> bool {
    &&& e.field("baseAsset"@) matches Some(b) && b.text() is Some
    &&& e.field("quoteAsset"@) matches Some(q) && q.text() is Some
}

/// The symbol of a binance.com entry: base and quote asset, lower-cased.
pub open spec fn binance_pair_symbol(e: Json) -> Seq<char> {
    lowercase(e.field("baseAsset"@).unwrap().text().unwrap()) + lowercase(
        e.field("quoteAsset"@).unwrap().text().unwrap(),
    )
}

/// The channel of the depth stream of a binance.com symbol.
pub open spec fn binance_channel(symbol: Seq<char>) -> Seq<char> {
    "\""@ + symbol + "@depth20@100ms\""@
}

/// The symbol of a binance.com stream name: what comes before its first `@`.
pub open spec fn binance_stream_symbol(stream: Seq<char>) -> Seq<char> {
    match first_index_of(stream, '@') {
        Some(i) => stream.take(i),
        None => Seq::empty(),
    }
}

impl Exchange for BinanceCom {
    open spec fn symbols_ok(&self, json: Json) -> bool {
        match json.field("symbols"@) {
            Some(list) => match list.elements() {
                Some(entries) => forall|i: int|
                    0 <= i < entries.len() ==> #[trigger] binance_pair_ok(entries[i]),
                None => false,
            },
            None => false,
        }
    }

    open spec fn symbols_of(&self, json: Json) -> Seq<Seq<char>> {
        json.field("symbols"@).unwrap().elements().unwrap().map_values(
            |e: Json| binance_pair_symbol(e),
        )
    }

    open spec fn subscribe_msgs_of(&self, symbols: Seq<Seq<char>>) -> Seq<Seq<char>> {
        seq![
            "{\"method\":\"SUBSCRIBE\",\"params\":["@ + join(
                symbols.map_values(|s: Seq<char>| binance_channel(s)),
                ","@,
            ) + "],\"id\":1}"@,
        ]
    }

    open spec fn snapshot_ok(&self, json: Json) -> bool {
        match json.field("stream"@) {
            Some(v) => v.text() is Some && depth_ok(json),
            None => true,
        }
    }

    open spec fn snapshot_of(&self, json: Json) -> Option<SnapshotView> {
        match json.field("stream"@) {
            Some(v) => Some(
                depth_snapshot(json, "binance_com"@, binance_stream_symbol(v.text().unwrap())),
            ),
            None => None,
        }
    }

    fn try_parse_symbols(&self, json: &Json) -> (res: Result<Vec<String>, MalformedMessage>) {
        let list = match json.get("symbols") {
            Some(l) => l,
            None => return Err(MalformedMessage),
        };
        let entries = match list.as_array() {
            Some(e) => e,
            None => return Err(MalformedMessage),
        };
        assert(self.symbols_ok(*json) == (forall|j: int|
            0 <= j < entries@.len() ==> #[trigger] binance_pair_ok(entries@[j]))) by {
            assert(self.symbols_ok(*json) == match json.field("symbols"@) {
                Some(list) => match list.elements() {
                    Some(entries) => forall|i: int|
                        0 <= i < entries.len() ==> #[trigger] binance_pair_ok(entries[i]),
                    None => false,
                },
                None => false,
            });
        }
        let ghost want = entries@.map_values(|e: Json| binance_pair_symbol(e));
        let mut symbols: Vec<String> = Vec::new();
        let mut i: usize = 0;
        while i < entries.len()
            invariant
                0 <= i <= entries.len(),
                want == entries@.map_values(|e: Json| binance_pair_symbol(e)),
                self.symbols_ok(*json) == (forall|j: int|
                    0 <= j < entries@.len() ==> #[trigger] binance_pair_ok(entries@[j])),
                self.symbols_of(*json) == want,
                symbols@.len() == i,
                forall|j: int| 0 <= j < i ==> #[trigger] binance_pair_ok(entries@[j]),
                forall|j: int| 0 <= j < i ==> (#[trigger] symbols@[j])@ == want[j],
            decreases entries.len() - i,
        {
            let e = &entries[i];
            let base = match e.get("baseAsset") {
                Some(b) => match b.as_str() {
                    Some(s) => s,
                    None => {
                        assert(!binance_pair_ok(entries@[i as int]));
                        return Err(MalformedMessage);
                    },
                },
                None => {
                    assert(!binance_pair_ok(entries@[i as int]));
                    return Err(MalformedMessage);
                },
            };
            let quote = match e.get("quoteAsset") {
                Some(q) => match q.as_str() {
                    Some(s) => s,
                    None => {
                        assert(!binance_pair_ok(entries@[i as int]));
                        return Err(MalformedMessage);
                    },
                },
                None => {
                    assert(!binance_pair_ok(entries@[i as int]));
                    return Err(MalformedMessage);
                },
            };
            let symbol = to_lowercase(base.as_str()).concat(to_lowercase(quote.as_str()).as_str());
            symbols.push(symbol);
            i = i + 1;
        }
        assert(strings_view(symbols@) =~= want);
        Ok(symbols)
    }

    fn build_subscribe_msgs(&self, symbols: &Vec<String>) -> (res: Vec<String>) {
        let mut channels: Vec<String> = Vec::new();
        let ghost names = strings_view(symbols@);
        let mut i: usize = 0;
        while i < symbols.len()
            invariant
                0 <= i <= symbols.len(),
                names == strings_view(symbols@),
                channels@.len() == i,
                forall|j: int| 0 <= j < i ==> (#[trigger] channels@[j])@ == binance_channel(names[j]),
            decreases symbols.len() - i,
        {
            let channel = owned("\"").concat(symbols[i].as_str()).concat("@depth20@100ms\"");
            channels.push(channel);
            i = i + 1;
        }
        assert(strings_view(channels@) =~= names.map_values(|s: Seq<char>| binance_channel(s)));
        let msg = owned("{\"method\":\"SUBSCRIBE\",\"params\":[").concat(
            join_strings(&channels, ",").as_str(),
        ).concat("],\"id\":1}");
        let mut msgs: Vec<String> = Vec::new();
        msgs.push(msg);
        assert(strings_view(msgs@) =~= self.subscribe_msgs_of(names));
        msgs
    }

    fn try_parse_snapshot(&self, json: &Json) -> (res: Result<
        Option<OrderBookSnapshot>,
        MalformedMessage,
    >) {
        let stream = match json.get("stream") {
            Some(v) => match v.as_str() {
                Some(s) => s,
                None => return Err(MalformedMessage),
            },
            None => return Ok(None),
        };
        let end = match find_first(stream.as_str(), '@') {
            Some(i) => i,
            None => 0,
        };
        let symbol = owned(stream.as_str().substring_char(0, end));
        assert(symbol@ =~= binance_stream_symbol(stream@));
        let snapshot = parse_depth(json, "binance_com", symbol)?;
        proof {
            lemma_parsed_levels_capped(side_entries(*json, "bids"@).unwrap());
            lemma_parsed_levels_capped(side_entries(*json, "asks"@).unwrap());
        }
        Ok(Some(snapshot))
    }
}

// ---------------------------------------------------------------------------
// Bitstamp

/// Bitstamp.
#[derive(Debug, PartialEq, Eq, Structural, Clone, Copy)]
pub struct Bitstamp;

/// A symbol entry of Bitstamp has the string `url_symbol`.
pub open spec fn bitstamp_pair_ok(e: Json) -> bool {
    e.field("url_symbol"@) matches Some(u) && u.text() is Some
}

/// The message that subscribes to the order book of a Bitstamp symbol.
pub open spec fn bitstamp_subscribe_msg(symbol: Seq<char>) -> Seq<char> {
    "{\"event\":\"bts:subscribe\",\"data\":{\"channel\":\"order_book_"@ + symbol + "\"}}"@
}

/// The symbol can be cut out of a Bitstamp channel name: it holds a `_`, or its
/// first character takes one byte.
pub open spec fn bitstamp_channel_ok(channel: Seq<char>) -> bool {
    ||| last_index_of(channel, '_') is Some
    ||| channel.len() >= 1 && (channel[0] as int) < 0x80
}

/// The symbol of a Bitstamp channel name: what follows its last `_`, or, where it
/// holds none, all but its first character.
pub open spec fn bitstamp_channel_symbol(channel: Seq<char>) -> Seq<char> {
    match last_index_of(channel, '_') {
        Some(i) => channel.skip(i + 1),
        None => channel.skip(1),
    }
}

impl Exchange for Bitstamp {
    open spec fn symbols_ok(&self, json: Json) -> bool {
        match json.elements() {
            Some(entries) => forall|i: int|
                0 <= i < entries.len() ==> #[trigger] bitstamp_pair_ok(entries[i]),
            None => false,
        }
    }

    open spec fn symbols_of(&self, json: Json) -> Seq<Seq<char>> {
        json.elements().unwrap().map_values(|e: Json| e.field("url_symbol"@).unwrap().text().unwrap())
    }

    open spec fn subscribe_msgs_of(&self, symbols: Seq<Seq<char>>) -> Seq<Seq<char>> {
        symbols.map_values(|s: Seq<char>| bitstamp_subscribe_msg(s))
    }

    open spec fn snapshot_ok(&self, json: Json) -> bool {
        match json.field("channel"@) {
            Some(c) => match json.field("event"@) {
                Some(e) => match e.text() {
                    Some(event) => event != "data"@ || match c.text() {
                        Some(channel) => bitstamp_channel_ok(channel) && depth_ok(json),
                        None => false,
                    },
                    None => false,
                },
                None => false,
            },
            None => true,
        }
    }

    open spec fn snapshot_of(&self, json: Json) -> Option<SnapshotView> {
        match json.field("channel"@) {
            Some(c) => if json.field("event"@).unwrap().text().unwrap() != "data"@ {
                None
            } else {
                Some(
                    depth_snapshot(json, "bitstamp"@, bitstamp_channel_symbol(c.text().unwrap())),
                )
            },
            None => None,
        }
    }

    fn try_parse_symbols(&self, json: &Json) -> (res: Result<Vec<String>, MalformedMessage>) {
        let entries = match json.as_array() {
            Some(e) => e,
            None => return Err(MalformedMessage),
        };
        let ghost want = self.symbols_of(*json);
        assert(self.symbols_ok(*json) == (forall|j: int|
            0 <= j < entries@.len() ==> #[trigger] bitstamp_pair_ok(entries@[j]))) by {
            assert(self.symbols_ok(*json) == match json.elements() {
                Some(entries) => forall|i: int|
                    0 <= i < entries.len() ==> #[trigger] bitstamp_pair_ok(entries[i]),
                None => false,
            });
        }
        let mut symbols: Vec<String> = Vec::new();
        let mut i: usize = 0;
        while i < entries.len()
            invariant
                0 <= i <= entries.len(),
                want == entries@.map_values(|e: Json| e.field("url_symbol"@).unwrap().text().unwrap()),
                self.symbols_ok(*json) == (forall|j: int|
                    0 <= j < entries@.len() ==> #[trigger] bitstamp_pair_ok(entries@[j])),
                self.symbols_of(*json) == want,
                symbols@.len() == i,
                forall|j: int| 0 <= j < i ==> #[trigger] bitstamp_pair_ok(entries@[j]),
                forall|j: int| 0 <= j < i ==> (#[trigger] symbols@[j])@ == want[j],
            decreases entries.len() - i,
        {
            let symbol = match entries[i].get("url_symbol") {
                Some(u) => match u.as_str() {
                    Some(s) => s,
                    None => {
                        assert(!bitstamp_pair_ok(entries@[i as int]));
                        return Err(MalformedMessage);
                    },
                },
                None => {
                    assert(!bitstamp_pair_ok(entries@[i as int]));
                    return Err(MalformedMessage);
                },
            };
            symbols.push(symbol.clone());
            i = i + 1;
        }
        assert(strings_view(symbols@) =~= want);
        Ok(symbols)
    }

    fn build_subscribe_msgs(&self, symbols: &Vec<String>) -> (res: Vec<String>) {
        let mut msgs: Vec<String> = Vec::new();
        let ghost names = strings_view(symbols@);
        let mut i: usize = 0;
        while i < symbols.len()
            invariant
                0 <= i <= symbols.len(),
                names == strings_view(symbols@),
                msgs@.len() == i,
                forall|j: int| 0 <= j < i ==> (#[trigger] msgs@[j])@ == bitstamp_subscribe_msg(names[j]),
            decreases symbols.len() - i,
        {
            let msg = owned("{\"event\":\"bts:subscribe\",\"data\":{\"channel\":\"order_book_").concat(
                symbols[i].as_str(),
            ).concat("\"}}");
            msgs.push(msg);
            i = i + 1;
        }
        assert(strings_view(msgs@) =~= self.subscribe_msgs_of(names));
        msgs
    }

    fn try_parse_snapshot(&self, json: &Json) -> (res: Result<
        Option<OrderBookSnapshot>,
        MalformedMessage,
    >) {
        let c = match json.get("channel") {
            Some(c) => c,
            None => return Ok(None),
        };
        let event = match json.get("event") {
            Some(e) => match e.as_str() {
                Some(s) => s,
                None => return Err(MalformedMessage),
            },
            None => return Err(MalformedMessage),
        };
        if !event.eq(&owned("data")) {
            return Ok(None);
        }
        let channel = match c.as_str() {
            Some(s) => s.as_str(),
            None => return Err(MalformedMessage),
        };
        let n = channel.unicode_len();
        let start = match find_last(channel, '_') {
            Some(i) => i + 1,
            None => {
                if n == 0 || (channel.get_char(0) as u32) >= 0x80 {
                    return Err(MalformedMessage);
                }
                1
            },
        };
        let symbol = owned(channel.substring_char(start, n));
        assert(symbol@ =~= bitstamp_channel_symbol(channel@));
        let snapshot = parse_depth(json, "bitstamp", symbol)?;
        proof {
            lemma_parsed_levels_capped(side_entries(*json, "bids"@).unwrap());
            lemma_parsed_levels_capped(side_entries(*json, "asks"@).unwrap());
        }
        Ok(Some(snapshot))
    }
}

// ---------------------------------------------------------------------------
// What a stream message of a subscribed symbol gives back

/// The message that subscribes to a binance.com symbol lists the JSON string
/// `<symbol>@depth20@100ms`, and for a symbol without `@` the stream of that name
/// gives the symbol back.
pub proof fn law_binance_stream_gives_symbol(symbol: Seq<char>)
    requires
        !symbol.contains('@'),
    ensures
        binance_channel(symbol) == "\""@ + (symbol + "@depth20@100ms"@) + "\""@,
        binance_stream_symbol(symbol + "@depth20@100ms"@) == symbol,
{
    reveal_strlit("@depth20@100ms");
    reveal_strlit("@depth20@100ms\"");
    reveal_strlit("\"");
    let stream = symbol + "@depth20@100ms"@;
    let n = symbol.len() as int;
    assert(stream[n] == '@');
    assert forall|k: int| 0 <= k < n implies stream[k] != '@' by {
        assert(stream[k] == symbol[k]);
    }
    assert forall|k: int|
        0 <= k < stream.len() && stream[k] == '@' && (forall|j: int| 0 <= j < k ==> stream[j] != '@')
            implies k == n by {
        if k < n {
            assert(stream[k] == symbol[k]);
        } else if k > n {
            assert(stream[n] == '@');
        }
    }
    assert(first_index_of(stream, '@') == Some(n));
    assert(stream.take(n) =~= symbol);
    assert(binance_channel(symbol) =~= "\""@ + (symbol + "@depth20@100ms"@) + "\""@);
}

/// A binance.com depth message whose stream is that of a subscribed symbol (one
/// without `@`) gives a snapshot of that symbol.
pub proof fn law_binance_snapshot_of_subscribed_symbol(json: Json, symbol: Seq<char>)
    requires
        !symbol.contains('@'),
        json.field("stream"@) matches Some(v) && v.text() == Some(symbol + "@depth20@100ms"@),
        depth_ok(json),
    ensures
        BinanceCom.snapshot_ok(json),
        BinanceCom.snapshot_of(json) == Some(depth_snapshot(json, "binance_com"@, symbol)),
{
    law_binance_stream_gives_symbol(symbol);
}

/// The message that subscribes to a Bitstamp symbol names the channel
/// `order_book_<symbol>`, and for a symbol without `_` that channel gives the symbol
/// back.
pub proof fn law_bitstamp_channel_gives_symbol(symbol: Seq<char>)
    requires
        !symbol.contains('_'),
    ensures
        bitstamp_subscribe_msg(symbol) == "{\"event\":\"bts:subscribe\",\"data\":{\"channel\":\""@ + (
        "order_book_"@ + symbol) + "\"}}"@,
        bitstamp_channel_ok("order_book_"@ + symbol),
        bitstamp_channel_symbol("order_book_"@ + symbol) == symbol,
{
    reveal_strlit("order_book_");
    reveal_strlit("{\"event\":\"bts:subscribe\",\"data\":{\"channel\":\"order_book_");
    reveal_strlit("{\"event\":\"bts:subscribe\",\"data\":{\"channel\":\"");
    let channel = "order_book_"@ + symbol;
    let p = 10int;
    assert(channel[p] == '_');
    assert forall|k: int| p < k < channel.len() implies channel[k] != '_' by {
        assert(channel[k] == symbol[k - 11]);
    }
    assert forall|k: int|
        0 <= k < channel.len() && channel[k] == '_' && (forall|j: int| k < j < channel.len() ==> channel[j] != '_')
            implies k == p by {
        if k > p {
            assert(channel[k] == symbol[k - 11]);
        }
    }
    assert(last_index_of(channel, '_') == Some(p));
    assert(channel.skip(p + 1) =~= symbol);
    assert(bitstamp_subscribe_msg(symbol) =~= "{\"event\":\"bts:subscribe\",\"data\":{\"channel\":\""@ + (
    "order_book_"@ + symbol) + "\"}}"@);
}

/// A Bitstamp data message on the channel of a subscribed symbol (one without `_`)
/// gives a snapshot of that symbol.
pub proof fn law_bitstamp_snapshot_of_subscribed_symbol(json: Json, symbol: Seq<char>)
    requires
        !symbol.contains('_'),
        json.field("channel"@) matches Some(c) && c.text() == Some("order_book_"@ + symbol),
        json.field("event"@) matches Some(e) && e.text() == Some("data"@),
        depth_ok(json),
    ensures
        Bitstamp.snapshot_ok(json),
        Bitstamp.snapshot_of(json) == Some(depth_snapshot(json, "bitstamp"@, symbol)),
{
    law_bitstamp_channel_gives_symbol(symbol);
}

// ---------------------------------------------------------------------------
// What the exchanges' operations are for, over all inputs

/// Bitstamp subscribes to each symbol with a message of its own, in the order of
/// the symbols: the message for `s` is
/// `{"event":"bts:subscribe","data":{"channel":"order_book_<s>"}}`.
pub proof fn law_bitstamp_one_subscription_per_symbol(symbols: Seq<Seq<char>>)
    ensures
        Bitstamp.subscribe_msgs_of(symbols).len() == symbols.len(),
        forall|i: int|
            0 <= i < symbols.len() ==> #[trigger] Bitstamp.subscribe_msgs_of(symbols)[i]
                == "{\"event\":\"bts:subscribe\",\"data\":{\"channel\":\"order_book_"@ + symbols[i]
                + "\"}}"@,
{
}

/// binance.com subscribes to all symbols with one message; with no symbol its list
/// of channels is empty.
pub proof fn law_binance_one_subscription_message(symbols: Seq<Seq<char>>)
    ensures
        BinanceCom.subscribe_msgs_of(symbols).len() == 1,
        symbols.len() == 0 ==> BinanceCom.subscribe_msgs_of(symbols)[0]
            == "{\"method\":\"SUBSCRIBE\",\"params\":[],\"id\":1}"@,
{
    reveal_strlit("{\"method\":\"SUBSCRIBE\",\"params\":[");
    reveal_strlit("],\"id\":1}");
    reveal_strlit("{\"method\":\"SUBSCRIBE\",\"params\":[],\"id\":1}");
    if symbols.len() == 0 {
        assert(symbols.map_values(|s: Seq<char>| binance_channel(s)) =~= Seq::<Seq<char>>::empty());
        assert(BinanceCom.subscribe_msgs_of(symbols)[0] =~= "{\"method\":\"SUBSCRIBE\",\"params\":[],\"id\":1}"@);
    }
}

/// Each symbol adds its channel to the binance.com subscription: the message for one
/// symbol `x` lists the channel `"<x>@depth20@100ms"`, and the message for the
/// symbols `s` followed by `x` is that for `s` with `,"<x>@depth20@100ms"` added at
/// the end of its list of channels. So every symbol's channel is listed, in order.
pub proof fn law_binance_subscription_lists_every_symbol(symbols: Seq<Seq<char>>, x: Seq<char>)
    ensures
        symbols.len() == 0 ==> BinanceCom.subscribe_msgs_of(symbols.push(x))[0]
            == "{\"method\":\"SUBSCRIBE\",\"params\":["@ + ("\""@ + x + "@depth20@100ms\""@)
            + "],\"id\":1}"@,
        symbols.len() > 0 ==> BinanceCom.subscribe_msgs_of(symbols.push(x))[0] == {
            let before = BinanceCom.subscribe_msgs_of(symbols)[0];
            before.take(before.len() - "],\"id\":1}"@.len()) + ","@ + ("\""@ + x
                + "@depth20@100ms\""@) + "],\"id\":1}"@
        },
{
    let f = |s: Seq<char>| binance_channel(s);
    let channels = symbols.map_values(f);
    let all = symbols.push(x).map_values(f);
    assert(all =~= channels.push(binance_channel(x)));
    let head = "{\"method\":\"SUBSCRIBE\",\"params\":["@;
    let tail = "],\"id\":1}"@;
    if symbols.len() == 0 {
        assert(channels.push(binance_channel(x)) =~= seq![binance_channel(x)]);
        assert(join(all, ","@) == binance_channel(x));
    } else {
        assert(all.drop_last() =~= channels);
        assert(join(all, ","@) == join(channels, ","@) + ","@ + binance_channel(x));
        let before = head + join(channels, ","@) + tail;
        assert(before.take(before.len() - tail.len()) =~= head + join(channels, ","@));
        assert(BinanceCom.subscribe_msgs_of(symbols.push(x))[0] =~= before.take(
            before.len() - tail.len(),
        ) + ","@ + binance_channel(x) + tail);
    }
}

/// binance.com lists one symbol for each entry of its symbols message, in order: the
/// lower-cased base asset followed by the lower-cased quote asset.
pub proof fn law_binance_symbol_per_entry(json: Json)
    requires
        BinanceCom.symbols_ok(json),
    ensures
        ({
            let entries = json.field("symbols"@).unwrap().elements().unwrap();
            &&& BinanceCom.symbols_of(json).len() == entries.len()
            &&& forall|i: int|
                0 <= i < entries.len() ==> #[trigger] BinanceCom.symbols_of(json)[i] == lowercase(
                    entries[i].field("baseAsset"@).unwrap().text().unwrap(),
                ) + lowercase(entries[i].field("quoteAsset"@).unwrap().text().unwrap())
        }),
{
}

/// Bitstamp lists one symbol for each entry of its symbols message, in order: the
/// entry's `url_symbol` text as it is.
pub proof fn law_bitstamp_symbol_per_entry(json: Json)
    requires
        Bitstamp.symbols_ok(json),
    ensures
        Bitstamp.symbols_of(json).len() == json.elements().unwrap().len(),
        forall|i: int|
            0 <= i < json.elements().unwrap().len() ==> #[trigger] Bitstamp.symbols_of(json)[i]
                == json.elements().unwrap()[i].field("url_symbol"@).unwrap().text().unwrap(),
{
}

/// The first levels of a side of a depth message, each the pair of decimals that the
/// whole texts of the element's first two strings denote.
pub open spec fn levels_read_from_texts(
    levels: Seq<(DecimalView, DecimalView)>,
    entries: Seq<Json>,
) -> bool {
    &&& levels.len() == if entries.len() <= TOP_K {
        entries.len()
    } else {
        TOP_K as nat
    }
    &&& forall|i: int|
        0 <= i < levels.len() ==> {
            let items = entries[i].elements().unwrap();
            &&& Some((#[trigger] levels[i]).0) == parsed_decimal(items[0].text().unwrap())
            &&& Some(levels[i].1) == parsed_decimal(items[1].text().unwrap())
        }
}

proof fn lemma_depth_levels_read_from_texts(json: Json, name: Seq<char>, symbol: Seq<char>)
    requires
        depth_ok(json),
    ensures
        levels_read_from_texts(
            depth_snapshot(json, name, symbol).bids,
            side_entries(json, "bids"@).unwrap(),
        ),
        levels_read_from_texts(
            depth_snapshot(json, name, symbol).asks,
            side_entries(json, "asks"@).unwrap(),
        ),
{
    let b = side_entries(json, "bids"@).unwrap();
    let a = side_entries(json, "asks"@).unwrap();
    assert forall|i: int| 0 <= i < parsed_levels(b).len() implies {
        let items = b[i].elements().unwrap();
        &&& Some((#[trigger] parsed_levels(b)[i]).0) == parsed_decimal(items[0].text().unwrap())
        &&& Some(parsed_levels(b)[i].1) == parsed_decimal(items[1].text().unwrap())
    } by {
        assert(level_entry(b[i]) is Some);
    }
    assert forall|i: int| 0 <= i < parsed_levels(a).len() implies {
        let items = a[i].elements().unwrap();
        &&& Some((#[trigger] parsed_levels(a)[i]).0) == parsed_decimal(items[0].text().unwrap())
        &&& Some(parsed_levels(a)[i].1) == parsed_decimal(items[1].text().unwrap())
    } by {
        assert(level_entry(a[i]) is Some);
    }
}

/// A binance.com depth message gives, on each side, the first `TOP_K` levels of the
/// message, each price and quantity the decimal that its whole text denotes.
pub proof fn law_binance_levels_read_from_texts(json: Json)
    requires
        BinanceCom.snapshot_ok(json),
        json.field("stream"@) is Some,
    ensures
        BinanceCom.snapshot_of(json) matches Some(v) && levels_read_from_texts(
            v.bids,
            json.field("data"@).unwrap().field("bids"@).unwrap().elements().unwrap(),
        ) && levels_read_from_texts(
            v.asks,
            json.field("data"@).unwrap().field("asks"@).unwrap().elements().unwrap(),
        ),
{
    let v = json.field("stream"@).unwrap();
    lemma_depth_levels_read_from_texts(json, "binance_com"@, binance_stream_symbol(v.text().unwrap()));
}

/// A Bitstamp data message gives, on each side, the first `TOP_K` levels of the
/// message, each price and quantity the decimal that its whole text denotes.
pub proof fn law_bitstamp_levels_read_from_texts(json: Json)
    requires
        Bitstamp.snapshot_ok(json),
        json.field("channel"@) is Some,
        json.field("event"@) matches Some(e) && e.text() == Some("data"@),
    ensures
        Bitstamp.snapshot_of(json) matches Some(v) && levels_read_from_texts(
            v.bids,
            json.field("data"@).unwrap().field("bids"@).unwrap().elements().unwrap(),
        ) && levels_read_from_texts(
            v.asks,
            json.field("data"@).unwrap().field("asks"@).unwrap().elements().unwrap(),
        ),
{
    let c = json.field("channel"@).unwrap();
    lemma_depth_levels_read_from_texts(json, "bitstamp"@, bitstamp_channel_symbol(c.text().unwrap()));
}

// ---------------------------------------------------------------------------
// Choosing an exchange by name

/// One of the exchanges the library knows.
#[derive(Debug, PartialEq, Eq, Structural, Clone, Copy)]
pub enum ExchangeKind {
    BinanceCom(BinanceCom),
    Bitstamp(Bitstamp),
}

impl Exchange for ExchangeKind {
    open spec fn symbols_ok(&self, json: Json) -> bool {
        match self {
            ExchangeKind::BinanceCom(e) => e.symbols_ok(json),
            ExchangeKind::Bitstamp(e) => e.symbols_ok(json),
        }
    }

    open spec fn symbols_of(&self, json: Json) -> Seq<Seq<char>> {
        match self {
            ExchangeKind::BinanceCom(e) => e.symbols_of(json),
            ExchangeKind::Bitstamp(e) => e.symbols_of(json),
        }
    }

    open spec fn subscribe_msgs_of(&self, symbols: Seq<Seq<char>>) -> Seq<Seq<char>> {
        match self {
            ExchangeKind::BinanceCom(e) => e.subscribe_msgs_of(symbols),
            ExchangeKind::Bitstamp(e) => e.subscribe_msgs_of(symbols),
        }
    }

    open spec fn snapshot_ok(&self, json: Json) -> bool {
        match self {
            ExchangeKind::BinanceCom(e) => e.snapshot_ok(json),
            ExchangeKind::Bitstamp(e) => e.snapshot_ok(json),
        }
    }

    open spec fn snapshot_of(&self, json: Json) -> Option<SnapshotView> {
        match self {
            ExchangeKind::BinanceCom(e) => e.snapshot_of(json),
            ExchangeKind::Bitstamp(e) => e.snapshot_of(json),
        }
    }

    fn try_parse_symbols(&self, json: &Json) -> (res: Result<Vec<String>, MalformedMessage>) {
        match self {
            ExchangeKind::BinanceCom(e) => e.try_parse_symbols(json),
            ExchangeKind::Bitstamp(e) => e.try_parse_symbols(json),
        }
    }

    fn build_subscribe_msgs(&self, symbols: &Vec<String>) -> (res: Vec<String>) {
        match self {
            ExchangeKind::BinanceCom(e) => e.build_subscribe_msgs(symbols),
            ExchangeKind::Bitstamp(e) => e.build_subscribe_msgs(symbols),
        }
    }

    fn try_parse_snapshot(&self, json: &Json) -> (res: Result<
        Option<OrderBookSnapshot>,
        MalformedMessage,
    >) {
        match self {
            ExchangeKind::BinanceCom(e) => e.try_parse_snapshot(json),
            ExchangeKind::Bitstamp(e) => e.try_parse_snapshot(json),
        }
    }
}

/// The exchange named `binance_com` or `bitstamp`; `None` for any other name.
pub fn build_exchange(exchange_name: String) -> (res: Option<ExchangeKind>)
    ensures
        exchange_name@ == "binance_com"@ ==> res == Some(ExchangeKind::BinanceCom(BinanceCom)),
        exchange_name@ == "bitstamp"@ ==> res == Some(ExchangeKind::Bitstamp(Bitstamp)),
        exchange_name@ != "binance_com"@ && exchange_name@ != "bitstamp"@ ==> res is None,
{
    proof {
        reveal_strlit("binance_com");
        reveal_strlit("bitstamp");
        assert("binance_com"@.len() != "bitstamp"@.len());
    }
    if exchange_name.eq(&owned("binance_com")) {
        Some(ExchangeKind::BinanceCom(BinanceCom))
    } else if exchange_name.eq(&owned("bitstamp")) {
        Some(ExchangeKind::Bitstamp(Bitstamp))
    } else {
        None
    }
}

} // verus!
