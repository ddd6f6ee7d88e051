# quotes

A real-time stock price streaming simulation. A server generates simulated
prices for a set of tickers and streams them over UDP to clients that register
over TCP.

This crate is the verified core of that system, written in Verus:

- `stock_quote` — the `StockQuote` record and its 28-byte big-endian wire
  format (ticker, price bits, volume, timestamp), and the `|`-separated text
  form, whose price field must be a text that `f64::from_str` accepts
  (`float_text` decides that on characters); with the proofs that decoding
  the packet of a quote gives it back and that a canonical packet is
  re-encoded byte for byte.
- `command` — the `STREAM udp://<ip>:<port> <TICKER>,...` command: the
  server's parser, the client's builder and its reading of a tickers file
  (one per line, case-insensitive, deduplicated, blank and `#` lines
  skipped), and the proof that the command a client builds is accepted by the
  server with the same address and tickers.
- `ticker_loader` — loading the ticker list from a file's text or from the
  built-in list: lines trimmed and upper-cased, invalid ones skipped,
  duplicates dropped; with the proof of what the list holds.
- `ticker_laws` — that a tickers file is read case-insensitively and without
  regard to repeated lines, that reading back a written ticker list gives it
  again, and that normalizing an ASCII line is idempotent.
- `market_data` — the publish/subscribe bus over `crossbeam_channel`, its
  subscriptions held per ticker in vstd's `StringHashMap` (a `HashMap` keyed
  by `String`, with a specification). Its model records, for each
  subscription, the channel it feeds and every event handed to its sender, so
  that what is sent to each subscriber's channel is stated and proved (what
  the channel then yields to its receiver is crossbeam's behaviour and is not
  stated); the ticker loader finds repeats with vstd's `StringHashSet`.
- `subscription` — the channels and one subscription: its record of handed
  events starts empty, is copied with it, and grows only when its sender is
  really used.
- `prices` — the price feed's per-tick update of volumes and timestamps with
  the hourly volume reset.
- `receiver` — the client's decisions on datagrams and failed pings.
- `watchdog` — the server's decision to drop a client that stopped pinging.
- `text`, `decimal`, `bytes` — trimming, splitting and line splitting of
  text, decimal numerals, and big-endian integers.

`app/` holds the two programs around it (`quotes server …`, `quotes client …`):
argument handling, files, sockets, threads, logging, and the floating-point
price arithmetic.
