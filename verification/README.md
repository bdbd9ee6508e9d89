# rock

Aggregates the order books that crypto exchanges (binance.com, Bitstamp) stream over
websockets into one merged book per symbol, keeping the best ten bid and ask levels.

- `src/` is the verified library:
  - `decimal`: decimal numbers as mantissa and scale, compared and parsed by `rust_decimal`;
  - `json`: JSON values as plain data;
  - `order_book`: the merged order book, its laws, and the books of all symbols;
  - `merge`: a merge as the stable merge of two ranked sequences, what a merge means
    said directly, and the laws of repeated merges;
  - `exchange`: each exchange's symbol list, subscription messages and depth snapshots;
  - `symbols`: the symbols every enabled exchange trades, and the symbols file;
  - `config`: the exchanges' configuration;
  - `text`: text helpers.
- `app/` holds the program: configuration and symbol files, HTTP and websocket I/O,
  logging, and the summaries with floating-point prices.
- `tests/` runs the library on concrete values.
