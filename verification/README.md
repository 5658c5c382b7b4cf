# apex_venue

A deterministic trading venue core, verified with Verus.

- `src/sequencer.rs` — causal ids (SHA-256 of window root, position and content
  hash) and the canonical execution order of a batch (price, then causal id),
  with proofs that it is a sorted permutation and does not depend on arrival order.
- `src/wal.rs` — the write-ahead log format (length, payload, CRC-32 per frame,
  a barrier word closing each batch) and recovery, with the proofs that a log
  of committed batches reads back every operation in commit order, that a
  torn log reads back a prefix of them, and that a corrupted frame ends
  recovery. Committing a batch stages exactly the bytes that encode its
  orders.
- `src/ledger.rs` — balances kept in canonical key order, so the state root is a
  function of the balances alone.
- `src/book.rs` — the limit order book: an incoming order takes from the
  opposite side best price first, then earliest arrival, never beyond its
  limit; what is left of a good-till-cancelled order rests. Proved: every
  fill is the taker's and positive, fills never exceed the order, and a
  book whose bids are all below its asks stays so.
- `src/engine.rs` — batch execution: matching, a report and a diff per fill,
  settlement of each fill from buyer to seller, per-asset conservation, and
  refusal of a batch whose settlement would overflow; with the arrival-order
  law, and the idempotency laws for orders that do not fill.
- `src/tie_out.rs` — the end-of-day replay of the log against the database ledger.
- `src/market_data.rs`, `src/config.rs` — diff publication and settings.

`app/` holds the process shell: command-line parsing, logging, metrics, the
log file, the database query and the decoding of logged orders.
